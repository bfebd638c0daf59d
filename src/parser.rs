//! Recursive-descent statement parsing and precedence-climbing expression
//! parsing.
use vstd::prelude::*;
use crate::ast::{
    args_wf, expr_wf, lemma_args_wf_push, lemma_stmts_wf_push, stmt_wf, stmts_wf, term_wf, Expression,
    IdentifierValueType, ProgramNode, StatementNode, Term,
};
use crate::error::CompilationError;
use crate::token::{Tok, Token};
use crate::tokens::{nth_real, Tokens};
use crate::grammar::{
    args_of, assign_of, call_goal, decl_of, expect_of, expr_of, expr_view, exprs_view, fn_after_params, fn_of,
    ident_of, if_of, lemma_exprs_view_prefix, lemma_stmts_view_prefix, params_of, program_of, program_view,
    ret_of, scope_of, stmt_of, stmt_view, stmts_view, term_of, term_view, tok_peek, while_of, climb_of, ExprV,
    Parsed, StmtV, TermV,
};

verus! {

/// The stream only moved forward over the same tokens.
pub open spec fn moved_on(o: Tokens, f: Tokens) -> bool {
    &&& f.wf()
    &&& f.toks() == o.toks()
    &&& o.cursor() <= f.cursor()
}

/// The `k`-th token ahead of the cursor, line markers not counted.
pub open spec fn ahead(t: Tokens, k: nat) -> Option<Tok> {
    let j = nth_real(t.toks(), t.cursor(), k);
    if 0 <= j < t.toks().len() { Some(t.toks()[j]) } else { None }
}

/// Consumes the next token and fails with `message` unless it is `expected`.
fn expect(tokens: &mut Tokens, expected: Token, message: &str) -> (r: Result<(), CompilationError>)
    requires
        old(tokens).wf(),
    ensures
        moved_on(*old(tokens), *final(tokens)),
        r is Ok ==> old(tokens).cursor() < final(tokens).cursor(),
        (r is Ok) == (ahead(*old(tokens), 0) == Some(expected@)),
        match expect_of(old(tokens).toks(), old(tokens).cursor(), expected@, message@) {
            Ok(j) => r is Ok && final(tokens).cursor() == j,
            Err((m, j)) => (r matches Err(e) && e.message@ == m) && final(tokens).cursor() == j,
        },
{
    let t = match tokens.next() {
        Ok(t) => t,
        Err(e) => {
            return Err(e);
        },
    };
    if t.same(&expected) {
        Ok(())
    } else {
        Err(CompilationError::new(message))
    }
}

impl Term {
    /// Parses a leaf: an integer, a string, or an identifier term.
    pub fn parse(tokens: &mut Tokens) -> (r: Result<Self, CompilationError>)
        requires
            old(tokens).wf(),
        ensures
            moved_on(*old(tokens), *final(tokens)),
            r is Ok ==> old(tokens).cursor() < final(tokens).cursor(),
            r matches Ok(t) ==> term_wf(t),
            term_result(r, final(tokens).cursor(), term_of(old(tokens).toks(), old(tokens).cursor())),
        decreases old(tokens).remaining(), 1int,
    {
        let t = match tokens.peek(0) {
            Ok(t) => t,
            Err(e) => {
                return Err(e);
            },
        };
        match t {
            Token::Int(v) => {
                match tokens.next() {
                    Ok(_) => {},
                    Err(e) => {
                        return Err(e);
                    },
                }
                Ok(Term::Int(v))
            },
            Token::String(v) => {
                match tokens.next() {
                    Ok(_) => {},
                    Err(e) => {
                        return Err(e);
                    },
                }
                Ok(Term::String(v))
            },
            Token::Identifier(_) | Token::And | Token::Star => Term::parse_identifier(tokens),
            _ => Err(CompilationError::new("weird term")),
        }
    }

    /// Parses `name`, `&name`, `*name`, `name[e]` or `name(e, ...)`.
    pub fn parse_identifier(tokens: &mut Tokens) -> (r: Result<Self, CompilationError>)
        requires
            old(tokens).wf(),
        ensures
            moved_on(*old(tokens), *final(tokens)),
            r is Ok ==> old(tokens).cursor() < final(tokens).cursor(),
            r matches Ok(t) ==> term_wf(t),
            r matches Ok(t) ==> (t is Identifier || t is FunctionCall),
            term_result(r, final(tokens).cursor(), ident_of(old(tokens).toks(), old(tokens).cursor())),
        decreases old(tokens).remaining(), 0int,
    {
        let first = match tokens.peek(0) {
            Ok(t) => t,
            Err(e) => {
                return Err(e);
            },
        };
        let is_ref = match first {
            Token::And => IdentifierValueType::Reference,
            Token::Star => IdentifierValueType::Dereference,
            _ => IdentifierValueType::Value,
        };
        if !matches!(is_ref, IdentifierValueType::Value) {
            match tokens.next() {
                Ok(_) => {},
                Err(e) => {
                    return Err(e);
                },
            }
        }
        let name = match tokens.next() {
            Ok(Token::Identifier(name)) => name,
            Ok(_) => {
                return Err(CompilationError::new("expected identifier"));
            },
            Err(e) => {
                return Err(e);
            },
        };
        let after = match tokens.peek(0) {
            Ok(t) => t,
            Err(e) => {
                return Err(e);
            },
        };
        match after {
            Token::OpenBracket => {
                match tokens.next() {
                    Ok(_) => {},
                    Err(e) => {
                        return Err(e);
                    },
                }
                let mut expressions: Vec<Expression> = Vec::new();
                let ghost toks = old(tokens).toks();
                let ghost j2 = tokens.cursor();
                proof {
                    assert(exprs_view(expressions, 0) == Seq::<ExprV>::empty());
                    assert(ident_of(toks, old(tokens).cursor()) == call_goal(args_of(toks, j2, seq![]), name@, is_ref));
                }
                loop
                    invariant_except_break
                        args_of(toks, j2, seq![]) == args_of(toks, tokens.cursor(), exprs_view(expressions, expressions@.len() as int)),
                    invariant
                        moved_on(*old(tokens), *tokens),
                        old(tokens).cursor() < tokens.cursor(),
                        args_wf(expressions, expressions@.len() as int),
                        toks == old(tokens).toks(),
                        ident_of(toks, old(tokens).cursor()) == call_goal(args_of(toks, j2, seq![]), name@, is_ref),
                    ensures
                        moved_on(*old(tokens), *tokens),
                        old(tokens).cursor() < tokens.cursor(),
                        args_wf(expressions, expressions@.len() as int),
                        ident_of(toks, old(tokens).cursor()) == call_goal(args_of(toks, j2, seq![]), name@, is_ref),
                        args_of(toks, j2, seq![]) == Parsed::<Seq<ExprV>>::Ok((exprs_view(expressions, expressions@.len() as int), tokens.cursor())),
                    decreases tokens.remaining(),
                {
                    let ghost c = tokens.cursor();
                    let ghost ev = exprs_view(expressions, expressions@.len() as int);
                    let t = match tokens.peek(0) {
                        Ok(t) => t,
                        Err(e) => {
                            return Err(e);
                        },
                    };
                    proof {
                        assert(tok_peek(toks, c) == Some(t@));
                    }
                    match t {
                        Token::ClosedBracket => {
                            match tokens.next() {
                                Ok(_) => {},
                                Err(e) => {
                                    return Err(e);
                                },
                            }
                            assert(args_of(toks, c, ev) == Parsed::<Seq<ExprV>>::Ok((ev, tokens.cursor())));
                            break;
                        },
                        Token::Comma => {
                            match tokens.next() {
                                Ok(_) => {},
                                Err(e) => {
                                    return Err(e);
                                },
                            }
                            assert(args_of(toks, c, ev) == args_of(toks, tokens.cursor(), ev));
                        },
                        _ => {
                            let e = match Expression::parse(tokens, 0) {
                                Ok(e) => e,
                                Err(e) => {
                                    return Err(e);
                                },
                            };
                            let ghost before = expressions;
                            expressions.push(e);
                            proof {
                                assert(before@ =~= expressions@.subrange(0, before@.len() as int));
                                lemma_args_wf_push(before, expressions, before@.len() as int);
                                lemma_exprs_view_prefix(before, expressions, before@.len() as int);
                                assert(exprs_view(expressions, expressions@.len() as int) == ev.push(expr_view(e)));
                                assert(args_of(toks, c, ev) == args_of(toks, tokens.cursor(), ev.push(expr_view(e))));
                            }
                        },
                    }
                }
                if !matches!(is_ref, IdentifierValueType::Value) {
                    return Err(CompilationError::new("cannot reference a function"));
                }
                Ok(Term::FunctionCall(name, expressions))
            },
            Token::OpenSquare => {
                match tokens.next() {
                    Ok(_) => {},
                    Err(e) => {
                        return Err(e);
                    },
                }
                let e = match Expression::parse(tokens, 0) {
                    Ok(e) => e,
                    Err(e) => {
                        return Err(e);
                    },
                };
                match expect(tokens, Token::ClosedSquare, "expected ]") {
                    Ok(()) => {},
                    Err(e) => {
                        return Err(e);
                    },
                }
                Ok(Term::Identifier { name, index_expr: Some(Box::new(e)), is_ref })
            },
            _ => Ok(Term::Identifier { name, index_expr: None, is_ref }),
        }
    }
}

impl Expression {
    /// Precedence climbing: a term or a parenthesised expression, then every
    /// following binary operator of precedence at least `min_precedence`,
    /// whose right operand binds operators of higher precedence (and of equal
    /// precedence too, for `-` and `/`).
    pub fn parse(tokens: &mut Tokens, min_precedence: usize) -> (r: Result<Self, CompilationError>)
        requires
            old(tokens).wf(),
        ensures
            moved_on(*old(tokens), *final(tokens)),
            r is Ok ==> old(tokens).cursor() < final(tokens).cursor(),
            r matches Ok(e) ==> expr_wf(e),
            expr_result(r, final(tokens).cursor(), expr_of(old(tokens).toks(), old(tokens).cursor(), min_precedence as nat)),
        decreases old(tokens).remaining(), 2int,
    {
        let first = match tokens.peek(0) {
            Ok(t) => t,
            Err(e) => {
                return Err(e);
            },
        };
        let mut expr = match first {
            Token::OpenBracket => {
                match tokens.next() {
                    Ok(_) => {},
                    Err(e) => {
                        return Err(e);
                    },
                }
                let val = match Expression::parse(tokens, 0) {
                    Ok(v) => v,
                    Err(e) => {
                        return Err(e);
                    },
                };
                match expect(tokens, Token::ClosedBracket, "expected )") {
                    Ok(()) => {},
                    Err(e) => {
                        return Err(e);
                    },
                }
                val
            },
            _ => match Term::parse(tokens) {
                Ok(t) => Expression::Term(t),
                Err(e) => {
                    return Err(e);
                },
            },
        };
        let ghost toks = old(tokens).toks();
        let ghost goal = expr_of(toks, old(tokens).cursor(), min_precedence as nat);
        proof {
            assert(goal == climb_of(toks, tokens.cursor(), expr_view(expr), min_precedence as nat));
        }
        loop
            invariant
                moved_on(*old(tokens), *tokens),
                old(tokens).cursor() < tokens.cursor(),
                expr_wf(expr),
                toks == old(tokens).toks(),
                goal == expr_of(toks, old(tokens).cursor(), min_precedence as nat),
                goal == climb_of(toks, tokens.cursor(), expr_view(expr), min_precedence as nat),
            ensures
                moved_on(*old(tokens), *tokens),
                old(tokens).cursor() < tokens.cursor(),
                expr_wf(expr),
                goal == expr_of(toks, old(tokens).cursor(), min_precedence as nat),
                goal == Parsed::<ExprV>::Ok((expr_view(expr), tokens.cursor())),
            decreases tokens.remaining(),
        {
            let ghost c = tokens.cursor();
            let ghost lhs = expr_view(expr);
            let token = match tokens.peek(0) {
                Ok(t) => t,
                Err(e) => {
                    return Err(e);
                },
            };
            proof {
                assert(tok_peek(toks, c) == Some(token@));
            }
            match token.get_operator_info() {
                Some(info) => {
                    let precedence = info.0;
                    if precedence < min_precedence {
                        break;
                    }
                    let next_min = if info.1 { precedence + 1 } else { precedence };
                    match tokens.next() {
                        Ok(_) => {},
                        Err(e) => {
                            return Err(e);
                        },
                    }
                    let right = match Expression::parse(tokens, next_min) {
                        Ok(e) => e,
                        Err(e) => {
                            return Err(e);
                        },
                    };
                    let ghost rv = expr_view(right);
                    proof {
                        assert(climb_of(toks, c, lhs, min_precedence as nat) == climb_of(
                            toks,
                            tokens.cursor(),
                            ExprV::Binary { op: token@, left: Box::new(lhs), right: Box::new(rv) },
                            min_precedence as nat,
                        ));
                    }
                    expr = Expression::Binary { operator: token, left: Box::new(expr), right: Box::new(right) };
                },
                None => {
                    break;
                },
            }
        }
        Ok(expr)
    }
}

/// `r` and the final cursor `cur` are what the grammar gives.
pub open spec fn expr_result(r: Result<Expression, CompilationError>, cur: int, p: Parsed<ExprV>) -> bool {
    match p {
        Ok((v, j)) => (r matches Ok(e) && expr_view(e) == v) && cur == j,
        Err((m, j)) => (r matches Err(e) && e.message@ == m) && cur == j,
    }
}

pub open spec fn term_result(r: Result<Term, CompilationError>, cur: int, p: Parsed<TermV>) -> bool {
    match p {
        Ok((v, j)) => (r matches Ok(t) && term_view(t) == v) && cur == j,
        Err((m, j)) => (r matches Err(e) && e.message@ == m) && cur == j,
    }
}

pub open spec fn stmt_result(r: Result<StatementNode, CompilationError>, cur: int, p: Parsed<StmtV>) -> bool {
    match p {
        Ok((v, j)) => (r matches Ok(s) && stmt_view(s) == v) && cur == j,
        Err((m, j)) => (r matches Err(e) && e.message@ == m) && cur == j,
    }
}

pub open spec fn program_result(r: Result<ProgramNode, CompilationError>, cur: int, p: Parsed<Seq<StmtV>>) -> bool {
    match p {
        Ok((v, j)) => (r matches Ok(q) && program_view(q) == v) && cur == j,
        Err((m, j)) => (r matches Err(e) && e.message@ == m) && cur == j,
    }
}

/// Takes the next token, whatever it is.
fn skip(tokens: &mut Tokens) -> (r: Result<(), CompilationError>)
    requires
        old(tokens).wf(),
    ensures
        moved_on(*old(tokens), *final(tokens)),
        r is Ok ==> old(tokens).cursor() < final(tokens).cursor(),
        (r is Ok) == (ahead(*old(tokens), 0) is Some),
        r is Ok ==> final(tokens).cursor() == nth_real(old(tokens).toks(), old(tokens).cursor(), 0) + 1,
{
    match tokens.next() {
        Ok(_) => Ok(()),
        Err(e) => Err(e),
    }
}

impl StatementNode {
    /// Parses one statement; its first token says which kind.
    pub fn parse(tokens: &mut Tokens) -> (r: Result<Self, CompilationError>)
        requires
            old(tokens).wf(),
        ensures
            moved_on(*old(tokens), *final(tokens)),
            r is Ok ==> old(tokens).cursor() < final(tokens).cursor(),
            r matches Ok(s) ==> stmt_wf(s),
            stmt_result(r, final(tokens).cursor(), stmt_of(old(tokens).toks(), old(tokens).cursor())),
        decreases old(tokens).remaining(), 5int,
    {
        let first = match tokens.next() {
            Ok(t) => t,
            Err(e) => {
                return Err(e);
            },
        };
        match first {
            Token::Return => StatementNode::parse_return(tokens),
            Token::Declaration => StatementNode::parse_declaration(tokens),
            Token::If => StatementNode::parse_if(tokens),
            Token::OpenCurly => StatementNode::parse_scope(tokens),
            Token::While => StatementNode::parse_while(tokens),
            Token::Break => {
                match expect(tokens, Token::EndStatement, "Expected ;") {
                    Ok(()) => Ok(StatementNode::Break),
                    Err(e) => Err(e),
                }
            },
            Token::Print => {
                let expr = match Expression::parse(tokens, 0) {
                    Ok(e) => e,
                    Err(e) => {
                        return Err(e);
                    },
                };
                match expect(tokens, Token::Comma, "expected comma") {
                    Ok(()) => {},
                    Err(e) => {
                        return Err(e);
                    },
                }
                let len = match Expression::parse(tokens, 0) {
                    Ok(e) => e,
                    Err(e) => {
                        return Err(e);
                    },
                };
                match expect(tokens, Token::EndStatement, "Expected ;") {
                    Ok(()) => Ok(StatementNode::Print { expr, len }),
                    Err(e) => Err(e),
                }
            },
            Token::Read => {
                let ptr = match Expression::parse(tokens, 0) {
                    Ok(e) => e,
                    Err(e) => {
                        return Err(e);
                    },
                };
                match expect(tokens, Token::Comma, "expected comma") {
                    Ok(()) => {},
                    Err(e) => {
                        return Err(e);
                    },
                }
                let len = match Expression::parse(tokens, 0) {
                    Ok(e) => e,
                    Err(e) => {
                        return Err(e);
                    },
                };
                match expect(tokens, Token::EndStatement, "Expected ;") {
                    Ok(()) => Ok(StatementNode::Read { ptr, len }),
                    Err(e) => Err(e),
                }
            },
            Token::Identifier(name) => StatementNode::parse_assignment(tokens, name),
            Token::Function => StatementNode::parse_function(tokens),
            _ => Err(CompilationError::new("unexpected token")),
        }
    }

    /// `return e ;` after the keyword.
    fn parse_return(tokens: &mut Tokens) -> (r: Result<Self, CompilationError>)
        requires
            old(tokens).wf(),
        ensures
            moved_on(*old(tokens), *final(tokens)),
            r is Ok ==> old(tokens).cursor() < final(tokens).cursor(),
            r matches Ok(s) ==> stmt_wf(s),
            stmt_result(r, final(tokens).cursor(), ret_of(old(tokens).toks(), old(tokens).cursor())),
        decreases old(tokens).remaining(), 4int,
    {
        let expr = match Expression::parse(tokens, 0) {
            Ok(e) => e,
            Err(e) => {
                return Err(e);
            },
        };
        match expect(tokens, Token::EndStatement, "expected endstatement") {
            Ok(()) => Ok(StatementNode::Return { expr }),
            Err(e) => Err(e),
        }
    }

    /// `name [ '[' size ']' ] = e ;` after `let`; the size must be positive.
    pub fn parse_declaration(tokens: &mut Tokens) -> (r: Result<Self, CompilationError>)
        requires
            old(tokens).wf(),
        ensures
            moved_on(*old(tokens), *final(tokens)),
            r is Ok ==> old(tokens).cursor() < final(tokens).cursor(),
            r matches Ok(s) ==> stmt_wf(s),
            stmt_result(r, final(tokens).cursor(), decl_of(old(tokens).toks(), old(tokens).cursor())),
        decreases old(tokens).remaining(), 4int,
    {
        let literal = match tokens.next() {
            Ok(Token::Identifier(name)) => name,
            Ok(_) => {
                return Err(CompilationError::new("expected identifier"));
            },
            Err(e) => {
                return Err(e);
            },
        };
        let mut size: usize = 1;
        let next = match tokens.peek(0) {
            Ok(t) => t,
            Err(e) => {
                return Err(e);
            },
        };
        match next {
            Token::OpenSquare => {
                match skip(tokens) {
                    Ok(()) => {},
                    Err(e) => {
                        return Err(e);
                    },
                }
                match tokens.next() {
                    Ok(Token::Int(v)) => {
                        if v <= 0 {
                            return Err(CompilationError::new("array size cant be negative or 0"));
                        }
                        size = v as usize;
                    },
                    Ok(Token::Minus) => {
                        match tokens.next() {
                            Ok(Token::Int(_)) => {
                                return Err(CompilationError::new("array size cant be negative or 0"));
                            },
                            Ok(_) => {
                                return Err(CompilationError::new("expected int"));
                            },
                            Err(e) => {
                                return Err(e);
                            },
                        }
                    },
                    Ok(_) => {
                        return Err(CompilationError::new("expected int"));
                    },
                    Err(e) => {
                        return Err(e);
                    },
                }
                match expect(tokens, Token::ClosedSquare, "expected ]") {
                    Ok(()) => {},
                    Err(e) => {
                        return Err(e);
                    },
                }
            },
            _ => {},
        }
        match expect(tokens, Token::Equals, "expected equals") {
            Ok(()) => {},
            Err(e) => {
                return Err(e);
            },
        }
        let expr = match Expression::parse(tokens, 0) {
            Ok(e) => e,
            Err(e) => {
                return Err(e);
            },
        };
        match expect(tokens, Token::EndStatement, "expected endstatement") {
            Ok(()) => Ok(StatementNode::Declaration { literal, expr, size }),
            Err(e) => Err(e),
        }
    }

    /// `if e { ... }` after the keyword.
    fn parse_if(tokens: &mut Tokens) -> (r: Result<Self, CompilationError>)
        requires
            old(tokens).wf(),
        ensures
            moved_on(*old(tokens), *final(tokens)),
            r is Ok ==> old(tokens).cursor() < final(tokens).cursor(),
            r matches Ok(s) ==> stmt_wf(s),
            stmt_result(r, final(tokens).cursor(), if_of(old(tokens).toks(), old(tokens).cursor())),
        decreases old(tokens).remaining(), 4int,
    {
        let expr = match Expression::parse(tokens, 0) {
            Ok(e) => e,
            Err(e) => {
                return Err(e);
            },
        };
        match expect(tokens, Token::OpenCurly, "expected scope") {
            Ok(()) => {},
            Err(e) => {
                return Err(e);
            },
        }
        match StatementNode::parse_scope(tokens) {
            Ok(scope) => Ok(StatementNode::If { expr, scope: Box::new(scope) }),
            Err(e) => Err(e),
        }
    }

    /// `while e { ... }` after the keyword.
    fn parse_while(tokens: &mut Tokens) -> (r: Result<Self, CompilationError>)
        requires
            old(tokens).wf(),
        ensures
            moved_on(*old(tokens), *final(tokens)),
            r is Ok ==> old(tokens).cursor() < final(tokens).cursor(),
            r matches Ok(s) ==> stmt_wf(s),
            stmt_result(r, final(tokens).cursor(), while_of(old(tokens).toks(), old(tokens).cursor())),
        decreases old(tokens).remaining(), 4int,
    {
        let expr = match Expression::parse(tokens, 0) {
            Ok(e) => e,
            Err(e) => {
                return Err(e);
            },
        };
        match expect(tokens, Token::OpenCurly, "expected scope") {
            Ok(()) => {},
            Err(e) => {
                return Err(e);
            },
        }
        match StatementNode::parse_scope(tokens) {
            Ok(scope) => Ok(StatementNode::While { expr, scope: Box::new(scope) }),
            Err(e) => Err(e),
        }
    }

    /// `name ( a, b, ... ) { ... }` after `fn`.
    fn parse_function(tokens: &mut Tokens) -> (r: Result<Self, CompilationError>)
        requires
            old(tokens).wf(),
        ensures
            moved_on(*old(tokens), *final(tokens)),
            r is Ok ==> old(tokens).cursor() < final(tokens).cursor(),
            r matches Ok(s) ==> stmt_wf(s),
            stmt_result(r, final(tokens).cursor(), fn_of(old(tokens).toks(), old(tokens).cursor())),
        decreases old(tokens).remaining(), 4int,
    {
        let name = match tokens.next() {
            Ok(Token::Identifier(name)) => name,
            Ok(_) => {
                return Err(CompilationError::new("expected function name"));
            },
            Err(e) => {
                return Err(e);
            },
        };
        match expect(tokens, Token::OpenBracket, "expected (") {
            Ok(()) => {},
            Err(e) => {
                return Err(e);
            },
        }
        let mut args: Vec<String> = Vec::new();
        let ghost toks = old(tokens).toks();
        let ghost j1 = tokens.cursor();
        proof {
            assert(args@.map_values(|a: String| a@) =~= Seq::<Seq<char>>::empty());
        }
        loop
            invariant_except_break
                params_of(toks, j1, seq![]) == params_of(toks, tokens.cursor(), args@.map_values(|a: String| a@)),
            invariant
                moved_on(*old(tokens), *tokens),
                old(tokens).cursor() < tokens.cursor(),
                toks == old(tokens).toks(),
                fn_of(toks, old(tokens).cursor()) == fn_after_params(toks, old(tokens).cursor(), name@, params_of(toks, j1, seq![])),
            ensures
                moved_on(*old(tokens), *tokens),
                old(tokens).cursor() < tokens.cursor(),
                fn_of(toks, old(tokens).cursor()) == fn_after_params(toks, old(tokens).cursor(), name@, params_of(toks, j1, seq![])),
                params_of(toks, j1, seq![]) == Parsed::<Seq<Seq<char>>>::Ok((args@.map_values(|a: String| a@), tokens.cursor())),
            decreases tokens.remaining(),
        {
            let ghost c = tokens.cursor();
            let ghost av = args@.map_values(|a: String| a@);
            match tokens.next() {
                Ok(Token::ClosedBracket) => {
                    break;
                },
                Ok(Token::Identifier(arg)) => {
                    let after = match tokens.peek(0) {
                        Ok(t) => t,
                        Err(e) => {
                            return Err(e);
                        },
                    };
                    if matches!(after, Token::Comma) {
                        match skip(tokens) {
                            Ok(()) => {},
                            Err(e) => {
                                return Err(e);
                            },
                        }
                    }
                    let ghost argv = arg@;
                    args.push(arg);
                    proof {
                        assert(args@.map_values(|a: String| a@) =~= av.push(argv));
                    }
                },
                Ok(_) => {
                    return Err(CompilationError::new("unexpected token in function definition"));
                },
                Err(e) => {
                    return Err(e);
                },
            }
        }
        let next = match tokens.peek(0) {
            Ok(t) => t,
            Err(e) => {
                return Err(e);
            },
        };
        match next {
            Token::OpenCurly => {
                match skip(tokens) {
                    Ok(()) => {},
                    Err(e) => {
                        return Err(e);
                    },
                }
                match StatementNode::parse_scope(tokens) {
                    Ok(scope) => Ok(StatementNode::Function { name, scope: Box::new(scope), args }),
                    Err(e) => Err(e),
                }
            },
            _ => Err(CompilationError::new("expected scope")),
        }
    }

    /// The statements of a block up to its `}`, after the `{`.
    pub fn parse_scope(tokens: &mut Tokens) -> (r: Result<Self, CompilationError>)
        requires
            old(tokens).wf(),
        ensures
            moved_on(*old(tokens), *final(tokens)),
            r is Ok ==> old(tokens).cursor() < final(tokens).cursor(),
            r matches Ok(s) ==> s is Scope && stmt_wf(s),
            stmt_result(r, final(tokens).cursor(), scope_of(old(tokens).toks(), old(tokens).cursor(), seq![])),
        decreases old(tokens).remaining(), 6int,
    {
        let mut statements: Vec<StatementNode> = Vec::new();
        let ghost toks = old(tokens).toks();
        proof {
            assert(stmts_view(statements, 0) == Seq::<StmtV>::empty());
        }
        loop
            invariant
                moved_on(*old(tokens), *tokens),
                stmts_wf(statements, statements@.len() as int),
                toks == old(tokens).toks(),
                scope_of(toks, old(tokens).cursor(), seq![]) == scope_of(toks, tokens.cursor(), stmts_view(statements, statements@.len() as int)),
            decreases tokens.remaining(),
        {
            let ghost c = tokens.cursor();
            let ghost sv = stmts_view(statements, statements@.len() as int);
            let t = match tokens.peek(0) {
                Ok(t) => t,
                Err(_) => {
                    return Err(CompilationError::new("unclosed scope"));
                },
            };
            proof {
                assert(tok_peek(toks, c) == Some(t@));
            }
            if matches!(t, Token::ClosedCurly) {
                match skip(tokens) {
                    Ok(()) => {},
                    Err(e) => {
                        return Err(e);
                    },
                }
                return Ok(StatementNode::Scope { statements });
            }
            let stmt = match StatementNode::parse(tokens) {
                Ok(s) => s,
                Err(e) => {
                    proof {
                        assert(scope_of(toks, c, sv) == Parsed::<StmtV>::Err((e.message@, tokens.cursor())));
                    }
                    return Err(e);
                },
            };
            let ghost before = statements;
            statements.push(stmt);
            proof {
                assert(before@ =~= statements@.subrange(0, before@.len() as int));
                lemma_stmts_wf_push(before, statements, before@.len() as int);
                lemma_stmts_view_prefix(before, statements, before@.len() as int);
                assert(stmts_view(statements, statements@.len() as int) == sv.push(stmt_view(stmt)));
                assert(scope_of(toks, c, sv) == scope_of(toks, tokens.cursor(), sv.push(stmt_view(stmt))));
            }
        }
    }

    /// `[ '[' e ']' ] = e ;` after the target's name.
    fn parse_assignment(tokens: &mut Tokens, literal: String) -> (r: Result<Self, CompilationError>)
        requires
            old(tokens).wf(),
        ensures
            moved_on(*old(tokens), *final(tokens)),
            r is Ok ==> old(tokens).cursor() < final(tokens).cursor(),
            r matches Ok(s) ==> stmt_wf(s),
            stmt_result(r, final(tokens).cursor(), assign_of(old(tokens).toks(), old(tokens).cursor(), literal@)),
        decreases old(tokens).remaining(), 4int,
    {
        let mut index_expr: Option<Expression> = None;
        let next = match tokens.peek(0) {
            Ok(t) => t,
            Err(e) => {
                return Err(e);
            },
        };
        if matches!(next, Token::OpenSquare) {
            match skip(tokens) {
                Ok(()) => {},
                Err(e) => {
                    return Err(e);
                },
            }
            let ix = match Expression::parse(tokens, 0) {
                Ok(e) => e,
                Err(e) => {
                    return Err(e);
                },
            };
            match expect(tokens, Token::ClosedSquare, "expected ]") {
                Ok(()) => {},
                Err(e) => {
                    return Err(e);
                },
            }
            index_expr = Some(ix);
        }
        match expect(tokens, Token::Equals, "expected equals") {
            Ok(()) => {},
            Err(e) => {
                return Err(e);
            },
        }
        let expr = match Expression::parse(tokens, 0) {
            Ok(e) => e,
            Err(e) => {
                return Err(e);
            },
        };
        match expect(tokens, Token::EndStatement, "expected end statement") {
            Ok(()) => Ok(StatementNode::Assignment { literal, expr, index_expr }),
            Err(e) => Err(e),
        }
    }
}

impl ProgramNode {
    /// Parses statements until no token is left.
    pub fn parse(tokens: &mut Tokens) -> (r: Result<Self, CompilationError>)
        requires
            old(tokens).wf(),
        ensures
            moved_on(*old(tokens), *final(tokens)),
            r matches Ok(p) ==> ahead(*final(tokens), 0) is None
                && stmts_wf(p.statements, p.statements@.len() as int),
            ahead(*old(tokens), 0) is None ==> (r matches Ok(p) && p.statements@.len() == 0),
            program_result(r, final(tokens).cursor(), program_of(old(tokens).toks(), old(tokens).cursor(), seq![])),
    {
        let mut statements: Vec<StatementNode> = Vec::new();
        let ghost toks = old(tokens).toks();
        proof {
            assert(stmts_view(statements, 0) == Seq::<StmtV>::empty());
        }
        loop
            invariant_except_break
                program_of(toks, old(tokens).cursor(), seq![]) == program_of(toks, tokens.cursor(), stmts_view(statements, statements@.len() as int)),
            invariant
                moved_on(*old(tokens), *tokens),
                stmts_wf(statements, statements@.len() as int),
                ahead(*old(tokens), 0) is None ==> statements@.len() == 0 && *tokens == *old(tokens),
                toks == old(tokens).toks(),
            ensures
                program_of(toks, old(tokens).cursor(), seq![]) == Parsed::<Seq<StmtV>>::Ok((stmts_view(statements, statements@.len() as int), tokens.cursor())),
                ahead(*old(tokens), 0) is None ==> statements@.len() == 0,
                moved_on(*old(tokens), *tokens),
                stmts_wf(statements, statements@.len() as int),
                ahead(*tokens, 0) is None,
            decreases tokens.remaining(),
        {
            let ghost c = tokens.cursor();
            let ghost sv = stmts_view(statements, statements@.len() as int);
            match tokens.peek(0) {
                Ok(_) => {},
                Err(_) => {
                    break;
                },
            }
            let stmt = match StatementNode::parse(tokens) {
                Ok(s) => s,
                Err(e) => {
                    proof {
                        assert(program_of(toks, c, sv) == Parsed::<Seq<StmtV>>::Err((e.message@, tokens.cursor())));
                    }
                    return Err(e);
                },
            };
            let ghost before = statements;
            statements.push(stmt);
            proof {
                assert(before@ =~= statements@.subrange(0, before@.len() as int));
                lemma_stmts_wf_push(before, statements, before@.len() as int);
                lemma_stmts_view_prefix(before, statements, before@.len() as int);
                assert(stmts_view(statements, statements@.len() as int) == sv.push(stmt_view(stmt)));
                assert(program_of(toks, c, sv) == program_of(toks, tokens.cursor(), sv.push(stmt_view(stmt))));
            }
        }
        Ok(ProgramNode { statements })
    }
}

} // verus!
