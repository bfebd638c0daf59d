//! How much room lowering a tree needs, computed with a ceiling.
use vstd::prelude::*;
use crate::ast::{
    args_weight, expr_weight, stmt_weight, stmts_weight, term_weight, Expression, ProgramNode,
    StatementNode, Term,
};

verus! {

/// Weights are counted up to this ceiling.
pub const WEIGHT_CAP: u64 = 0x0100_0000_0000_0000;

pub open spec fn capped(w: nat) -> u64 {
    if w < WEIGHT_CAP { w as u64 } else { WEIGHT_CAP }
}

fn add_capped(a: u64, b: u64) -> (r: u64)
    requires
        a <= WEIGHT_CAP,
        b <= WEIGHT_CAP,
    ensures
        r == capped((a + b) as nat),
{
    if a + b < WEIGHT_CAP { a + b } else { WEIGHT_CAP }
}

proof fn lemma_capped_add(x: nat, y: nat)
    ensures
        capped((capped(x) + capped(y)) as nat) == capped(x + y),
{
}

impl Term {
    /// The term's weight, or the ceiling if that is smaller.
    pub fn weight(&self) -> (r: u64)
        ensures
            r == capped(term_weight(*self)),
        decreases self, 0int,
    {
        match self {
            Term::Int(_) => 1,
            Term::String(_) => 1,
            Term::Identifier { index_expr, .. } => match index_expr {
                Some(ix) => {
                    let w = ix.weight();
                    proof { lemma_capped_add(1, expr_weight(**ix)); }
                    add_capped(1, w)
                },
                None => 1,
            },
            Term::FunctionCall(_, args) => {
                let total = args_capped(args);
                proof { lemma_capped_add(1, args_weight(*args, args@.len() as int)); }
                add_capped(1, total)
            },
        }
    }
}

/// The weight of an argument list, or the ceiling if that is smaller.
fn args_capped(args: &Vec<Expression>) -> (r: u64)
    ensures
        r == capped(args_weight(*args, args@.len() as int)),
    decreases args, 1int,
{
    let mut total: u64 = 0;
    let mut i: usize = 0;
    while i < args.len()
        invariant
            i <= args@.len(),
            total == capped(args_weight(*args, i as int)),
        decreases args@.len() - i,
    {
        proof {
            assert(decreases_to!(*args => args@));
            assert(decreases_to!(args@ => args@[i as int]));
        }
        let w = args[i].weight();
        proof {
            lemma_capped_add(args_weight(*args, i as int), 1 + expr_weight(args@[i as int]));
            lemma_capped_add(1, expr_weight(args@[i as int]));
        }
        let step = add_capped(1, w);
        total = add_capped(total, step);
        i = i + 1;
    }
    total
}

impl Expression {
    /// The expression's weight, or the ceiling if that is smaller.
    pub fn weight(&self) -> (r: u64)
        ensures
            r == capped(expr_weight(*self)),
        decreases self, 0int,
    {
        match self {
            Expression::Term(t) => t.weight(),
            Expression::Binary { left, right, .. } => {
                let a = left.weight();
                let b = right.weight();
                proof {
                    lemma_capped_add(expr_weight(**left), expr_weight(**right));
                    lemma_capped_add(4, expr_weight(**left) + expr_weight(**right));
                }
                let s = add_capped(a, b);
                add_capped(4, s)
            },
        }
    }
}

fn opt_expr_weight(e: &Option<Expression>) -> (r: u64)
    ensures
        r == capped(crate::ast::opt_weight(*e)),
{
    match e {
        Some(x) => {
            let w = x.weight();
            proof { lemma_capped_add(1, expr_weight(*x)); }
            add_capped(1, w)
        },
        None => 0,
    }
}

impl StatementNode {
    /// The statement's weight, or the ceiling if that is smaller.
    pub fn weight(&self) -> (r: u64)
        ensures
            r == capped(stmt_weight(*self)),
        decreases self, 0int,
    {
        match self {
            StatementNode::Declaration { expr, size, .. } => {
                let e = expr.weight();
                let sz: u64 = if (*size as u64) < WEIGHT_CAP { *size as u64 } else { WEIGHT_CAP };
                proof {
                    lemma_capped_add(expr_weight(*expr), *size as nat);
                    lemma_capped_add(1, expr_weight(*expr) + *size as nat);
                }
                let s = add_capped(e, sz);
                add_capped(1, s)
            },
            StatementNode::Return { expr } => {
                let e = expr.weight();
                proof { lemma_capped_add(1, expr_weight(*expr)); }
                add_capped(1, e)
            },
            StatementNode::Scope { statements } => {
                let w = stmts_capped(statements);
                proof { lemma_capped_add(1, stmts_weight(*statements, statements@.len() as int)); }
                add_capped(1, w)
            },
            StatementNode::If { expr, scope } | StatementNode::While { expr, scope } => {
                let k: u64 = if matches!(self, StatementNode::If { .. }) { 2 } else { 3 };
                let e = expr.weight();
                let b = scope.weight();
                proof {
                    lemma_capped_add(expr_weight(*expr), stmt_weight(**scope));
                    lemma_capped_add(k as nat, expr_weight(*expr) + stmt_weight(**scope));
                }
                let s = add_capped(e, b);
                add_capped(k, s)
            },
            StatementNode::Assignment { expr, index_expr, .. } => {
                let e = expr.weight();
                let i = opt_expr_weight(index_expr);
                proof {
                    lemma_capped_add(expr_weight(*expr), crate::ast::opt_weight(*index_expr));
                    lemma_capped_add(2, expr_weight(*expr) + crate::ast::opt_weight(*index_expr));
                }
                let s = add_capped(e, i);
                add_capped(2, s)
            },
            StatementNode::Break => 1,
            StatementNode::Print { expr: a, len: b } | StatementNode::Read { ptr: a, len: b } => {
                let x = a.weight();
                let y = b.weight();
                proof {
                    lemma_capped_add(expr_weight(*a), expr_weight(*b));
                    lemma_capped_add(2, expr_weight(*a) + expr_weight(*b));
                }
                let s = add_capped(x, y);
                add_capped(2, s)
            },
            StatementNode::Function { scope, args, .. } => {
                let b = scope.weight();
                let n: u64 = if (args.len() as u64) < WEIGHT_CAP { args.len() as u64 } else { WEIGHT_CAP };
                proof {
                    lemma_capped_add(args@.len(), stmt_weight(**scope));
                    lemma_capped_add(1, args@.len() + stmt_weight(**scope));
                }
                let s = add_capped(n, b);
                add_capped(1, s)
            },
        }
    }
}

/// The weight of a statement list, or the ceiling if that is smaller.
fn stmts_capped(stmts: &Vec<StatementNode>) -> (r: u64)
    ensures
        r == capped(stmts_weight(*stmts, stmts@.len() as int)),
    decreases stmts, 1int,
{
    let mut total: u64 = 0;
    let mut i: usize = 0;
    while i < stmts.len()
        invariant
            i <= stmts@.len(),
            total == capped(stmts_weight(*stmts, i as int)),
        decreases stmts@.len() - i,
    {
        proof {
            assert(decreases_to!(*stmts => stmts@));
            assert(decreases_to!(stmts@ => stmts@[i as int]));
        }
        let w = stmts[i].weight();
        proof {
            lemma_capped_add(stmts_weight(*stmts, i as int), stmt_weight(stmts@[i as int]));
        }
        total = add_capped(total, w);
        i = i + 1;
    }
    total
}

impl ProgramNode {
    /// The program's weight, or the ceiling if that is smaller.
    pub fn weight(&self) -> (r: u64)
        ensures
            r == capped(stmts_weight(self.statements, self.statements@.len() as int)),
    {
        stmts_capped(&self.statements)
    }
}

} // verus!
