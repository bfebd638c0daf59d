//! The grammar as spec functions: what each parsing function reads from a
//! token sequence, starting at a cursor, and where it leaves the cursor.
use vstd::prelude::*;
use crate::ast::{Expression, IdentifierValueType, ProgramNode, StatementNode, Term};
use crate::token::{operator_info, Tok};
use crate::tokens::skip_lines;

verus! {

/// A term as plain values.
pub enum TermV {
    Int(i32),
    Identifier { name: Seq<char>, index: Option<Box<ExprV>>, mode: IdentifierValueType },
    Str(Seq<char>),
    Call(Seq<char>, Seq<ExprV>),
}

/// An expression as plain values.
pub enum ExprV {
    Term(TermV),
    Binary { op: Tok, left: Box<ExprV>, right: Box<ExprV> },
}

/// A statement as plain values.
pub enum StmtV {
    Declaration { name: Seq<char>, expr: ExprV, size: nat },
    Return(ExprV),
    Scope(Seq<StmtV>),
    If(ExprV, Box<StmtV>),
    While(ExprV, Box<StmtV>),
    Assignment { name: Seq<char>, expr: ExprV, index: Option<ExprV> },
    Break,
    Print(ExprV, ExprV),
    Read(ExprV, ExprV),
    Function { name: Seq<char>, body: Box<StmtV>, args: Seq<Seq<char>> },
}

pub open spec fn expr_view(e: Expression) -> ExprV
    decreases e, 0int,
{
    match e {
        Expression::Term(t) => ExprV::Term(term_view(t)),
        Expression::Binary { operator, left, right } => ExprV::Binary {
            op: operator@,
            left: Box::new(expr_view(*left)),
            right: Box::new(expr_view(*right)),
        },
    }
}

pub open spec fn term_view(t: Term) -> TermV
    decreases t, 0int,
{
    match t {
        Term::Int(v) => TermV::Int(v),
        Term::String(s) => TermV::Str(s@),
        Term::Identifier { name, index_expr, is_ref } => TermV::Identifier {
            name: name@,
            index: match index_expr {
                Some(ix) => Some(Box::new(expr_view(*ix))),
                None => None,
            },
            mode: is_ref,
        },
        Term::FunctionCall(name, args) => TermV::Call(name@, exprs_view(args, args@.len() as int)),
    }
}

/// The views of the first `n` expressions.
pub open spec fn exprs_view(args: Vec<Expression>, n: int) -> Seq<ExprV>
    decreases args, n,
{
    if n <= 0 || n > args@.len() { seq![] } else { exprs_view(args, n - 1).push(expr_view(args@[n - 1])) }
}

pub open spec fn stmt_view(s: StatementNode) -> StmtV
    decreases s, 0int,
{
    match s {
        StatementNode::Declaration { literal, expr, size } => StmtV::Declaration {
            name: literal@,
            expr: expr_view(expr),
            size: size as nat,
        },
        StatementNode::Return { expr } => StmtV::Return(expr_view(expr)),
        StatementNode::Scope { statements } => StmtV::Scope(stmts_view(statements, statements@.len() as int)),
        StatementNode::If { expr, scope } => StmtV::If(expr_view(expr), Box::new(stmt_view(*scope))),
        StatementNode::While { expr, scope } => StmtV::While(expr_view(expr), Box::new(stmt_view(*scope))),
        StatementNode::Assignment { literal, expr, index_expr } => StmtV::Assignment {
            name: literal@,
            expr: expr_view(expr),
            index: match index_expr {
                Some(ix) => Some(expr_view(ix)),
                None => None,
            },
        },
        StatementNode::Break => StmtV::Break,
        StatementNode::Print { expr, len } => StmtV::Print(expr_view(expr), expr_view(len)),
        StatementNode::Read { ptr, len } => StmtV::Read(expr_view(ptr), expr_view(len)),
        StatementNode::Function { name, scope, args } => StmtV::Function {
            name: name@,
            body: Box::new(stmt_view(*scope)),
            args: args@.map_values(|a: String| a@),
        },
    }
}

/// The views of the first `n` statements.
pub open spec fn stmts_view(stmts: Vec<StatementNode>, n: int) -> Seq<StmtV>
    decreases stmts, n,
{
    if n <= 0 || n > stmts@.len() { seq![] } else { stmts_view(stmts, n - 1).push(stmt_view(stmts@[n - 1])) }
}

pub open spec fn program_view(p: ProgramNode) -> Seq<StmtV> {
    stmts_view(p.statements, p.statements@.len() as int)
}

/// A parse from a cursor: the value read and the cursor after it, or an
/// error message and the cursor where reading stopped.
pub type Parsed<V> = Result<(V, int), (Seq<char>, int)>;

/// Taking the next token that is no line marker.
pub open spec fn tok_next(toks: Seq<Tok>, i: int) -> Parsed<Tok> {
    let j = skip_lines(toks, i);
    if j < toks.len() { Ok((toks[j], j + 1)) } else { Err(("Missing Token"@, toks.len() as int)) }
}

/// The next token that is no line marker, without taking it.
pub open spec fn tok_peek(toks: Seq<Tok>, i: int) -> Option<Tok> {
    let j = skip_lines(toks, i);
    if j < toks.len() { Some(toks[j]) } else { None }
}

/// Taking the next token, which must be `t`, else `msg`.
pub open spec fn expect_of(toks: Seq<Tok>, i: int, t: Tok, msg: Seq<char>) -> Result<int, (Seq<char>, int)> {
    match tok_next(toks, i) {
        Ok((u, j)) => if u == t { Ok(j) } else { Err((msg, j)) },
        Err(e) => Err(e),
    }
}

/// Precedence climbing: an operand, then the operators that bind at least
/// `min` (see `climb_of`).
pub open spec fn expr_of(toks: Seq<Tok>, i: int, min: nat) -> Parsed<ExprV>
    decreases toks.len() - i, 3int,
{
    match tok_peek(toks, i) {
        None => Err(("Missing Token"@, i)),
        Some(Tok::OpenBracket) => match tok_next(toks, i) {
            Ok((_, j)) => if j <= i || j > toks.len() { Err((seq![], j)) } else {
                match expr_of(toks, j, 0) {
                    Ok((v, j2)) => match expect_of(toks, j2, Tok::ClosedBracket, "expected )"@) {
                        Ok(j3) => if j3 <= i || j3 > toks.len() { Err((seq![], j3)) } else { climb_of(toks, j3, v, min) },
                        Err(e) => Err(e),
                    },
                    Err(e) => Err(e),
                }
            },
            Err(e) => Err(e),
        },
        Some(_) => match term_of(toks, i) {
            Ok((t, j)) => if j <= i || j > toks.len() { Err((seq![], j)) } else { climb_of(toks, j, ExprV::Term(t), min) },
            Err(e) => Err(e),
        },
    }
}

/// After `lhs`, each following operator of precedence `p >= min` takes as
/// its right operand an expression of operators of precedence above `p`
/// (at least `p` for `-` and `/`), and the result becomes the new `lhs`.
pub open spec fn climb_of(toks: Seq<Tok>, j: int, lhs: ExprV, min: nat) -> Parsed<ExprV>
    decreases toks.len() - j, 2int,
{
    match tok_peek(toks, j) {
        None => Err(("Missing Token"@, j)),
        Some(t) => match operator_info(t) {
            None => Ok((lhs, j)),
            Some((p, assoc)) => {
                if p < min {
                    Ok((lhs, j))
                } else {
                    let next_min: nat = if assoc { (p + 1) as nat } else { p as nat };
                    match tok_next(toks, j) {
                        Ok((_, j1)) => if j1 <= j || j1 > toks.len() { Err((seq![], j1)) } else {
                            match expr_of(toks, j1, next_min) {
                                Ok((r, j2)) => if j2 <= j || j2 > toks.len() { Err((seq![], j2)) } else {
                                    climb_of(toks, j2, ExprV::Binary { op: t, left: Box::new(lhs), right: Box::new(r) }, min)
                                },
                                Err(e) => Err(e),
                            }
                        },
                        Err(e) => Err(e),
                    }
                }
            },
        },
    }
}

/// A term: an integer, a string, or an identifier term.
pub open spec fn term_of(toks: Seq<Tok>, i: int) -> Parsed<TermV>
    decreases toks.len() - i, 2int,
{
    match tok_peek(toks, i) {
        None => Err(("Missing Token"@, i)),
        Some(Tok::Int(v)) => match tok_next(toks, i) {
            Ok((_, j)) => Ok((TermV::Int(v), j)),
            Err(e) => Err(e),
        },
        Some(Tok::String(v)) => match tok_next(toks, i) {
            Ok((_, j)) => Ok((TermV::Str(v), j)),
            Err(e) => Err(e),
        },
        Some(Tok::Identifier(_)) => ident_of(toks, i),
        Some(Tok::And) => ident_of(toks, i),
        Some(Tok::Star) => ident_of(toks, i),
        Some(_) => Err(("weird term"@, i)),
    }
}

/// The mode an identifier term starts with.
pub open spec fn mode_of(t: Tok) -> IdentifierValueType {
    match t {
        Tok::And => IdentifierValueType::Reference,
        Tok::Star => IdentifierValueType::Dereference,
        _ => IdentifierValueType::Value,
    }
}

/// `[&|*] name`, then `( args )`, `[ e ]` or nothing; a call may not be
/// referenced or dereferenced.
pub open spec fn ident_of(toks: Seq<Tok>, i: int) -> Parsed<TermV>
    decreases toks.len() - i, 1int,
{
    match tok_peek(toks, i) {
        None => Err(("Missing Token"@, i)),
        Some(first) => {
            let mode = mode_of(first);
            let after_mode: Result<int, (Seq<char>, int)> = if mode == IdentifierValueType::Value {
                Ok(i)
            } else {
                match tok_next(toks, i) {
                    Ok((_, j)) => Ok(j),
                    Err(e) => Err(e),
                }
            };
            match after_mode {
                Err(e) => Err(e),
                Ok(i1) => match tok_next(toks, i1) {
                    Err(e) => Err(e),
                    Ok((Tok::Identifier(name), j)) => if j <= i || j > toks.len() { Err((seq![], j)) } else {
                        match tok_peek(toks, j) {
                            None => Err(("Missing Token"@, j)),
                            Some(Tok::OpenBracket) => match tok_next(toks, j) {
                                Ok((_, j2)) => if j2 <= i || j2 > toks.len() { Err((seq![], j2)) } else { match args_of(toks, j2, seq![]) {
                                    Ok((args, j3)) => if mode != IdentifierValueType::Value {
                                        Err(("cannot reference a function"@, j3))
                                    } else {
                                        Ok((TermV::Call(name, args), j3))
                                    },
                                    Err(e) => Err(e),
                                } },
                                Err(e) => Err(e),
                            },
                            Some(Tok::OpenSquare) => match tok_next(toks, j) {
                                Ok((_, j2)) => if j2 <= i || j2 > toks.len() { Err((seq![], j2)) } else { match expr_of(toks, j2, 0) {
                                    Ok((ix, j3)) => match expect_of(toks, j3, Tok::ClosedSquare, "expected ]"@) {
                                        Ok(j4) => Ok((TermV::Identifier { name, index: Some(Box::new(ix)), mode }, j4)),
                                        Err(e) => Err(e),
                                    },
                                    Err(e) => Err(e),
                                } },
                                Err(e) => Err(e),
                            },
                            Some(_) => Ok((TermV::Identifier { name, index: None, mode }, j)),
                        }
                    },
                    Ok((_, j)) => Err(("expected identifier"@, j)),
                },
            }
        },
    }
}

/// Call arguments up to `)`: expressions, commas skipped.
pub open spec fn args_of(toks: Seq<Tok>, i: int, acc: Seq<ExprV>) -> Parsed<Seq<ExprV>>
    decreases toks.len() - i, 4int,
{
    if i < 0 || i > toks.len() {
        Err((seq![], i))
    } else {
        match tok_peek(toks, i) {
            None => Err(("Missing Token"@, i)),
            Some(Tok::ClosedBracket) => match tok_next(toks, i) {
                Ok((_, j)) => Ok((acc, j)),
                Err(e) => Err(e),
            },
            Some(Tok::Comma) => match tok_next(toks, i) {
                Ok((_, j)) => if j <= i || j > toks.len() { Err((seq![], j)) } else { args_of(toks, j, acc) },
                Err(e) => Err(e),
            },
            Some(_) => match expr_of(toks, i, 0) {
                Ok((e, j)) => if j <= i || j > toks.len() { Err((seq![], j)) } else { args_of(toks, j, acc.push(e)) },
                Err(e) => Err(e),
            },
        }
    }
}

/// `e ;` after a keyword that ends with an expression.
pub open spec fn expr_stmt_end(toks: Seq<Tok>, i: int, msg: Seq<char>) -> Parsed<ExprV> {
    match expr_of(toks, i, 0) {
        Ok((e, j)) => match expect_of(toks, j, Tok::EndStatement, msg) {
            Ok(j2) => Ok((e, j2)),
            Err(x) => Err(x),
        },
        Err(x) => Err(x),
    }
}

/// `e , e ;` after `print` or `read`.
pub open spec fn pair_of(toks: Seq<Tok>, i: int) -> Parsed<(ExprV, ExprV)> {
    match expr_of(toks, i, 0) {
        Ok((a, j)) => match expect_of(toks, j, Tok::Comma, "expected comma"@) {
            Ok(j2) => match expr_stmt_end(toks, j2, "Expected ;"@) {
                Ok((b, j3)) => Ok(((a, b), j3)),
                Err(x) => Err(x),
            },
            Err(x) => Err(x),
        },
        Err(x) => Err(x),
    }
}

/// A statement; its first token says which kind.
pub open spec fn stmt_of(toks: Seq<Tok>, i: int) -> Parsed<StmtV>
    decreases toks.len() - i, 5int,
{
    match tok_next(toks, i) {
        Err(x) => Err(x),
        Ok((t, j)) => if j <= i || j > toks.len() { Err((seq![], j)) } else {
            match t {
                Tok::Return => ret_of(toks, j),
                Tok::Declaration => decl_of(toks, j),
                Tok::If => if_of(toks, j),
                Tok::OpenCurly => scope_of(toks, j, seq![]),
                Tok::While => while_of(toks, j),
                Tok::Break => match expect_of(toks, j, Tok::EndStatement, "Expected ;"@) {
                    Ok(j2) => Ok((StmtV::Break, j2)),
                    Err(x) => Err(x),
                },
                Tok::Print => match pair_of(toks, j) {
                    Ok(((a, b), j2)) => Ok((StmtV::Print(a, b), j2)),
                    Err(x) => Err(x),
                },
                Tok::Read => match pair_of(toks, j) {
                    Ok(((a, b), j2)) => Ok((StmtV::Read(a, b), j2)),
                    Err(x) => Err(x),
                },
                Tok::Identifier(name) => assign_of(toks, j, name),
                Tok::Function => fn_of(toks, j),
                _ => Err(("unexpected token"@, j)),
            }
        },
    }
}

/// `e ;` after `return`.
pub open spec fn ret_of(toks: Seq<Tok>, i: int) -> Parsed<StmtV> {
    match expr_stmt_end(toks, i, "expected endstatement"@) {
        Ok((e, j)) => Ok((StmtV::Return(e), j)),
        Err(x) => Err(x),
    }
}

/// `e { ... }` after `if`.
pub open spec fn if_of(toks: Seq<Tok>, i: int) -> Parsed<StmtV>
    decreases toks.len() - i + 1, 4int,
{
    match block_after(toks, i, i - 1) {
        Ok(((e, b), j)) => Ok((StmtV::If(e, Box::new(b)), j)),
        Err(x) => Err(x),
    }
}

/// `e { ... }` after `while`.
pub open spec fn while_of(toks: Seq<Tok>, i: int) -> Parsed<StmtV>
    decreases toks.len() - i + 1, 4int,
{
    match block_after(toks, i, i - 1) {
        Ok(((e, b), j)) => Ok((StmtV::While(e, Box::new(b)), j)),
        Err(x) => Err(x),
    }
}

/// `e { ... }`: a condition and a block (`start` is just before `i`).
pub open spec fn block_after(toks: Seq<Tok>, i: int, start: int) -> Parsed<(ExprV, StmtV)>
    decreases toks.len() - start, 3int,
{
    match expr_of(toks, i, 0) {
        Ok((e, j)) => match expect_of(toks, j, Tok::OpenCurly, "expected scope"@) {
            Ok(j2) => if j2 <= start || j2 > toks.len() { Err((seq![], j2)) } else {
                match scope_of(toks, j2, seq![]) {
                    Ok((b, j3)) => Ok(((e, b), j3)),
                    Err(x) => Err(x),
                }
            },
            Err(x) => Err(x),
        },
        Err(x) => Err(x),
    }
}

/// The statements of a block up to its `}`, after the `{`.
pub open spec fn scope_of(toks: Seq<Tok>, i: int, acc: Seq<StmtV>) -> Parsed<StmtV>
    decreases toks.len() - i, 6int,
{
    if i < 0 || i > toks.len() {
        Err((seq![], i))
    } else {
        match tok_peek(toks, i) {
            None => Err(("unclosed scope"@, i)),
            Some(Tok::ClosedCurly) => match tok_next(toks, i) {
                Ok((_, j)) => Ok((StmtV::Scope(acc), j)),
                Err(x) => Err(x),
            },
            Some(_) => match stmt_of(toks, i) {
                Ok((st, j)) => if j <= i || j > toks.len() { Err((seq![], j)) } else { scope_of(toks, j, acc.push(st)) },
                Err(x) => Err(x),
            },
        }
    }
}

/// The array size after `[`: a positive integer; zero or a negative number
/// is refused.
pub open spec fn size_of(toks: Seq<Tok>, i: int) -> Parsed<nat> {
    match tok_next(toks, i) {
        Ok((Tok::Int(v), j)) => if v <= 0 {
            Err(("array size cant be negative or 0"@, j))
        } else {
            match expect_of(toks, j, Tok::ClosedSquare, "expected ]"@) {
                Ok(j2) => Ok((v as nat, j2)),
                Err(x) => Err(x),
            }
        },
        Ok((Tok::Minus, j)) => match tok_next(toks, j) {
            Ok((Tok::Int(_), j2)) => Err(("array size cant be negative or 0"@, j2)),
            Ok((_, j2)) => Err(("expected int"@, j2)),
            Err(x) => Err(x),
        },
        Ok((_, j)) => Err(("expected int"@, j)),
        Err(x) => Err(x),
    }
}

/// `name [ '[' size ']' ] = e ;` after `let`.
pub open spec fn decl_of(toks: Seq<Tok>, i: int) -> Parsed<StmtV> {
    match tok_next(toks, i) {
        Err(x) => Err(x),
        Ok((Tok::Identifier(name), j)) => {
            let sized: Parsed<nat> = match tok_peek(toks, j) {
                None => Err(("Missing Token"@, j)),
                Some(Tok::OpenSquare) => match tok_next(toks, j) {
                    Ok((_, j1)) => size_of(toks, j1),
                    Err(x) => Err(x),
                },
                Some(_) => Ok((1nat, j)),
            };
            match sized {
                Ok((size, k)) => match expect_of(toks, k, Tok::Equals, "expected equals"@) {
                    Ok(k1) => match expr_stmt_end(toks, k1, "expected endstatement"@) {
                        Ok((e, k2)) => Ok((StmtV::Declaration { name, expr: e, size }, k2)),
                        Err(x) => Err(x),
                    },
                    Err(x) => Err(x),
                },
                Err(x) => Err(x),
            }
        },
        Ok((_, j)) => Err(("expected identifier"@, j)),
    }
}

/// `[ '[' e ']' ] = e ;` after the target's name.
pub open spec fn assign_of(toks: Seq<Tok>, i: int, name: Seq<char>) -> Parsed<StmtV> {
    let indexed: Parsed<Option<ExprV>> = match tok_peek(toks, i) {
        None => Err(("Missing Token"@, i)),
        Some(Tok::OpenSquare) => match tok_next(toks, i) {
            Ok((_, j)) => match expr_of(toks, j, 0) {
                Ok((ix, j2)) => match expect_of(toks, j2, Tok::ClosedSquare, "expected ]"@) {
                    Ok(j3) => Ok((Some(ix), j3)),
                    Err(x) => Err(x),
                },
                Err(x) => Err(x),
            },
            Err(x) => Err(x),
        },
        Some(_) => Ok((None, i)),
    };
    match indexed {
        Ok((index, k)) => match expect_of(toks, k, Tok::Equals, "expected equals"@) {
            Ok(k1) => match expr_stmt_end(toks, k1, "expected end statement"@) {
                Ok((e, k2)) => Ok((StmtV::Assignment { name, expr: e, index }, k2)),
                Err(x) => Err(x),
            },
            Err(x) => Err(x),
        },
        Err(x) => Err(x),
    }
}

/// Parameter names up to `)`, each optionally followed by a comma.
pub open spec fn params_of(toks: Seq<Tok>, i: int, acc: Seq<Seq<char>>) -> Parsed<Seq<Seq<char>>>
    decreases toks.len() - i,
{
    if i < 0 || i > toks.len() {
        Err((seq![], i))
    } else {
        match tok_next(toks, i) {
            Ok((Tok::ClosedBracket, j)) => Ok((acc, j)),
            Ok((Tok::Identifier(a), j)) => match tok_peek(toks, j) {
                None => Err(("Missing Token"@, j)),
                Some(Tok::Comma) => match tok_next(toks, j) {
                    Ok((_, j2)) => if j2 <= i || j2 > toks.len() { Err((seq![], j2)) } else { params_of(toks, j2, acc.push(a)) },
                    Err(x) => Err(x),
                },
                Some(_) => if j <= i || j > toks.len() { Err((seq![], j)) } else { params_of(toks, j, acc.push(a)) },
            },
            Ok((_, j)) => Err(("unexpected token in function definition"@, j)),
            Err(x) => Err(x),
        }
    }
}

/// `name ( params ) { ... }` after `fn`.
pub open spec fn fn_of(toks: Seq<Tok>, i: int) -> Parsed<StmtV>
    decreases toks.len() - i, 4int,
{
    match tok_next(toks, i) {
        Err(x) => Err(x),
        Ok((Tok::Identifier(name), j)) => match expect_of(toks, j, Tok::OpenBracket, "expected ("@) {
            Ok(j1) => fn_after_params(toks, i, name, params_of(toks, j1, seq![])),
            Err(x) => Err(x),
        },
        Ok((_, j)) => Err(("expected function name"@, j)),
    }
}

/// The rest of a function definition once its parameters are read (the
/// definition's tokens began at `start`).
pub open spec fn fn_after_params(toks: Seq<Tok>, start: int, name: Seq<char>, p: Parsed<Seq<Seq<char>>>) -> Parsed<StmtV>
    decreases toks.len() - start, 3int,
{
    match p {
        Ok((args, j2)) => match tok_peek(toks, j2) {
            None => Err(("Missing Token"@, j2)),
            Some(Tok::OpenCurly) => match tok_next(toks, j2) {
                Ok((_, j3)) => if j3 <= start || j3 > toks.len() { Err((seq![], j3)) } else {
                    match scope_of(toks, j3, seq![]) {
                        Ok((b, j4)) => Ok((StmtV::Function { name, body: Box::new(b), args }, j4)),
                        Err(x) => Err(x),
                    }
                },
                Err(x) => Err(x),
            },
            Some(_) => Err(("expected scope"@, j2)),
        },
        Err(x) => Err(x),
    }
}

/// Statements until no token is left.
pub open spec fn program_of(toks: Seq<Tok>, i: int, acc: Seq<StmtV>) -> Parsed<Seq<StmtV>>
    decreases toks.len() - i,
{
    if i < 0 || i > toks.len() {
        Err((seq![], i))
    } else {
        match tok_peek(toks, i) {
            None => Ok((acc, i)),
            Some(_) => match stmt_of(toks, i) {
                Ok((st, j)) => if j <= i || j > toks.len() { Err((seq![], j)) } else { program_of(toks, j, acc.push(st)) },
                Err(x) => Err(x),
            },
        }
    }
}

pub proof fn lemma_exprs_view_prefix(a: Vec<Expression>, b: Vec<Expression>, n: int)
    requires
        0 <= n <= a@.len() <= b@.len(),
        a@ == b@.subrange(0, a@.len() as int),
    ensures
        exprs_view(a, n) == exprs_view(b, n),
    decreases n,
{
    if n > 0 {
        lemma_exprs_view_prefix(a, b, n - 1);
        assert(a@[n - 1] == b@[n - 1]);
    }
}

pub proof fn lemma_stmts_view_prefix(a: Vec<StatementNode>, b: Vec<StatementNode>, n: int)
    requires
        0 <= n <= a@.len() <= b@.len(),
        a@ == b@.subrange(0, a@.len() as int),
    ensures
        stmts_view(a, n) == stmts_view(b, n),
    decreases n,
{
    if n > 0 {
        lemma_stmts_view_prefix(a, b, n - 1);
        assert(a@[n - 1] == b@[n - 1]);
    }
}

/// What a call term gives once its arguments are read.
pub open spec fn call_goal(p: Parsed<Seq<ExprV>>, name: Seq<char>, mode: IdentifierValueType) -> Parsed<TermV> {
    match p {
        Ok((args, j)) => if mode != IdentifierValueType::Value {
            Err(("cannot reference a function"@, j))
        } else {
            Ok((TermV::Call(name, args), j))
        },
        Err(e) => Err(e),
    }
}

} // verus!
