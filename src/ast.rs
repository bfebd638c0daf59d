//! The syntax tree, and what lowering a tree requires and does to the
//! scope and stack bookkeeping.
use vstd::prelude::*;
use crate::context::{frame_lookup, scope_lookup, FrameV, ScopeV};
use crate::token::{is_operator, Token};

verus! {

/// How an identifier term is read.
#[derive(Debug, Clone, Copy, PartialEq, Eq, Structural)]
pub enum IdentifierValueType {
    /// The address of the slot (`&x`).
    Reference,
    /// The value stored at the address held in the slot (`*x`).
    Dereference,
    /// The value in the slot (`x`).
    Value,
}

/// A leaf of an expression.
#[derive(Debug)]
pub enum Term {
    Int(i32),
    Identifier { name: String, index_expr: Option<Box<Expression>>, is_ref: IdentifierValueType },
    String(String),
    FunctionCall(String, Vec<Expression>),
}

/// An expression tree.
#[derive(Debug)]
pub enum Expression {
    Term(Term),
    Binary { operator: Token, left: Box<Expression>, right: Box<Expression> },
}

/// A statement.
#[derive(Debug)]
pub enum StatementNode {
    Declaration { literal: String, expr: Expression, size: usize },
    Return { expr: Expression },
    Scope { statements: Vec<StatementNode> },
    If { expr: Expression, scope: Box<StatementNode> },
    While { expr: Expression, scope: Box<StatementNode> },
    Assignment { literal: String, expr: Expression, index_expr: Option<Expression> },
    Break,
    Print { expr: Expression, len: Expression },
    Read { ptr: Expression, len: Expression },
    Function { name: String, scope: Box<StatementNode>, args: Vec<String> },
}

/// A whole program: its top-level statements in order.
#[derive(Debug)]
pub struct ProgramNode {
    pub statements: Vec<StatementNode>,
}

/// What lowering needs to know of a frame: its stack size, its open scopes,
/// and how many loops enclose the current point.
pub struct Shape {
    pub stack_size: int,
    pub scopes: Seq<ScopeV>,
    pub loops: nat,
}

pub open spec fn shape(f: FrameV) -> Shape {
    Shape { stack_size: f.stack_size, scopes: f.scopes, loops: f.loop_labels.len() }
}

/// Every variable an expression reads is visible, every function it calls is
/// declared, and every operator is a binary operator.
pub open spec fn expr_ok(e: Expression, scopes: Seq<ScopeV>, fns: Seq<Seq<char>>) -> bool
    decreases e, 0int,
{
    match e {
        Expression::Term(t) => term_ok(t, scopes, fns),
        Expression::Binary { operator, left, right } => is_operator(operator@) && expr_ok(*left, scopes, fns)
            && expr_ok(*right, scopes, fns),
    }
}

pub open spec fn term_ok(t: Term, scopes: Seq<ScopeV>, fns: Seq<Seq<char>>) -> bool
    decreases t, 0int,
{
    match t {
        Term::Int(_) => true,
        Term::String(_) => true,
        Term::Identifier { name, index_expr, is_ref } => frame_lookup(scopes, name@) is Some && match index_expr {
            Some(ix) => expr_ok(*ix, scopes, fns),
            None => true,
        },
        Term::FunctionCall(name, args) => fns.contains(name@) && args_ok(args, args@.len() as int, scopes, fns),
    }
}

/// The first `n` arguments are fine.
pub open spec fn args_ok(args: Vec<Expression>, n: int, scopes: Seq<ScopeV>, fns: Seq<Seq<char>>) -> bool
    decreases args, n,
{
    if n <= 0 || n > args@.len() {
        true
    } else {
        args_ok(args, n - 1, scopes, fns) && expr_ok(args@[n - 1], scopes, fns)
    }
}

/// An upper bound on the labels, pooled strings and stack words that
/// lowering an expression uses.
pub open spec fn expr_weight(e: Expression) -> nat
    decreases e, 0int,
{
    match e {
        Expression::Term(t) => term_weight(t),
        Expression::Binary { operator, left, right } => 4 + expr_weight(*left) + expr_weight(*right),
    }
}

pub open spec fn term_weight(t: Term) -> nat
    decreases t, 0int,
{
    match t {
        Term::Int(_) => 1,
        Term::String(_) => 1,
        Term::Identifier { name, index_expr, is_ref } => 1 + match index_expr {
            Some(ix) => expr_weight(*ix),
            None => 0,
        },
        Term::FunctionCall(name, args) => 1 + args_weight(args, args@.len() as int),
    }
}

pub open spec fn args_weight(args: Vec<Expression>, n: int) -> nat
    decreases args, n,
{
    if n <= 0 || n > args@.len() {
        0
    } else {
        args_weight(args, n - 1) + 1 + expr_weight(args@[n - 1])
    }
}

pub open spec fn opt_weight(e: Option<Expression>) -> nat {
    match e {
        Some(x) => 1 + expr_weight(x),
        None => 0,
    }
}

/// An upper bound on the labels, pooled strings and stack words that
/// lowering a statement uses.
pub open spec fn stmt_weight(s: StatementNode) -> nat
    decreases s, 0int,
{
    match s {
        StatementNode::Declaration { literal, expr, size } => 1 + expr_weight(expr) + size as nat,
        StatementNode::Return { expr } => 1 + expr_weight(expr),
        StatementNode::Scope { statements } => 1 + stmts_weight(statements, statements@.len() as int),
        StatementNode::If { expr, scope } => 2 + expr_weight(expr) + stmt_weight(*scope),
        StatementNode::While { expr, scope } => 3 + expr_weight(expr) + stmt_weight(*scope),
        StatementNode::Assignment { literal, expr, index_expr } => 2 + expr_weight(expr) + opt_weight(index_expr),
        StatementNode::Break => 1,
        StatementNode::Print { expr, len } => 2 + expr_weight(expr) + expr_weight(len),
        StatementNode::Read { ptr, len } => 2 + expr_weight(ptr) + expr_weight(len),
        StatementNode::Function { name, scope, args } => 1 + args@.len() + stmt_weight(*scope),
    }
}

pub open spec fn stmts_weight(stmts: Vec<StatementNode>, n: int) -> nat
    decreases stmts, n,
{
    if n <= 0 || n > stmts@.len() {
        0
    } else {
        stmts_weight(stmts, n - 1) + stmt_weight(stmts@[n - 1])
    }
}

/// The scopes with `name` bound to `offset` in the innermost one.
pub open spec fn bind_scopes(scopes: Seq<ScopeV>, name: Seq<char>, offset: i64) -> Seq<ScopeV> {
    let s = scopes.last();
    scopes.update(scopes.len() - 1, ScopeV { vars: s.vars.push((name, offset)), ..s })
}

/// The bookkeeping after closing the innermost scope.
pub open spec fn close_shape(sh: Shape) -> Shape {
    let c = sh.scopes.last().created;
    Shape {
        stack_size: if sh.stack_size > c { c } else { sh.stack_size },
        scopes: sh.scopes.drop_last(),
        loops: sh.loops,
    }
}

/// The bookkeeping after opening a scope.
pub open spec fn open_shape(sh: Shape) -> Shape {
    Shape { scopes: sh.scopes.push(ScopeV { vars: seq![], created: sh.stack_size }), ..sh }
}

/// Offset of parameter `i` of `n`: below the saved base pointer and the
/// return address, the last parameter nearest.
pub open spec fn param_offset(n: int, i: int) -> int {
    -(n - i + 1) * 8
}

/// The bindings of a function's parameters, in order.
pub open spec fn param_vars(args: Seq<String>) -> Seq<(Seq<char>, i64)> {
    Seq::new(args.len(), |i: int| (args[i]@, param_offset(args.len() as int, i) as i64))
}

/// The bookkeeping on entry to a function body.
pub open spec fn param_shape(args: Seq<String>) -> Shape {
    Shape { stack_size: 0, scopes: seq![ScopeV { vars: param_vars(args), created: 0 }], loops: 0 }
}

/// Lowering a statement from bookkeeping `sh`, with `fns` declared: `None` if
/// it fails, else the bookkeeping and declared functions afterwards.
pub open spec fn lower_stmt(s: StatementNode, sh: Shape, fns: Seq<Seq<char>>) -> Option<(Shape, Seq<Seq<char>>)>
    decreases s, 0int,
{
    match s {
        StatementNode::Declaration { literal, expr, size } => {
            if expr_ok(expr, sh.scopes, fns) && sh.scopes.len() > 0
                && scope_lookup(sh.scopes.last().vars, literal@) is None {
                let n = sh.stack_size + 8 * size;
                Some((Shape { stack_size: n, scopes: bind_scopes(sh.scopes, literal@, n as i64), ..sh }, fns))
            } else {
                None
            }
        },
        StatementNode::Return { expr } => if expr_ok(expr, sh.scopes, fns) { Some((sh, fns)) } else { None },
        StatementNode::Scope { statements } => {
            match lower_stmts(statements, statements@.len() as int, open_shape(sh), fns) {
                Some((b, f)) => Some((close_shape(b), f)),
                None => None,
            }
        },
        StatementNode::If { expr, scope } => {
            if expr_ok(expr, sh.scopes, fns) { lower_stmt(*scope, sh, fns) } else { None }
        },
        StatementNode::While { expr, scope } => {
            if expr_ok(expr, sh.scopes, fns) {
                match lower_stmt(*scope, Shape { loops: sh.loops + 1, ..sh }, fns) {
                    Some((b, f)) => Some((Shape { loops: if b.loops > 0 { (b.loops - 1) as nat } else { 0 }, ..b }, f)),
                    None => None,
                }
            } else {
                None
            }
        },
        StatementNode::Assignment { literal, expr, index_expr } => {
            if frame_lookup(sh.scopes, literal@) is Some && expr_ok(expr, sh.scopes, fns) && match index_expr {
                Some(ix) => expr_ok(ix, sh.scopes, fns),
                None => true,
            } {
                Some((sh, fns))
            } else {
                None
            }
        },
        StatementNode::Break => if sh.loops > 0 { Some((sh, fns)) } else { None },
        StatementNode::Print { expr, len } => {
            if expr_ok(expr, sh.scopes, fns) && expr_ok(len, sh.scopes, fns) { Some((sh, fns)) } else { None }
        },
        StatementNode::Read { ptr, len } => {
            if expr_ok(ptr, sh.scopes, fns) && expr_ok(len, sh.scopes, fns) { Some((sh, fns)) } else { None }
        },
        StatementNode::Function { name, scope, args } => {
            if fns.contains(name@) {
                None
            } else {
                match lower_stmt(*scope, param_shape(args@), fns.push(name@)) {
                    Some((b, f)) => Some((sh, f)),
                    None => None,
                }
            }
        },
    }
}

/// Lowering the first `n` statements in order.
pub open spec fn lower_stmts(stmts: Vec<StatementNode>, n: int, sh: Shape, fns: Seq<Seq<char>>) -> Option<(Shape, Seq<Seq<char>>)>
    decreases stmts, n,
{
    if n <= 0 || n > stmts@.len() {
        Some((sh, fns))
    } else {
        match lower_stmts(stmts, n - 1, sh, fns) {
            Some((s1, f1)) => lower_stmt(stmts@[n - 1], s1, f1),
            None => None,
        }
    }
}

/// Lowering a statement keeps all scopes but the innermost as they were,
/// keeps the innermost scope's opening size and the loop depth, and grows the
/// stack by at most eight bytes per unit of weight.
pub proof fn lemma_lower_keeps_frame(s: StatementNode, sh: Shape, fns: Seq<Seq<char>>)
    requires
        lower_stmt(s, sh, fns) is Some,
    ensures
        ({
            let sh2 = lower_stmt(s, sh, fns).unwrap().0;
            &&& sh2.scopes.len() == sh.scopes.len()
            &&& sh2.scopes.drop_last() == sh.scopes.drop_last()
            &&& sh.scopes.len() > 0 ==> sh2.scopes.last().created == sh.scopes.last().created
            &&& sh.stack_size <= sh2.stack_size <= sh.stack_size + 8 * stmt_weight(s)
            &&& sh2.loops == sh.loops
        }),
    decreases s, 0int,
{
    match s {
        StatementNode::Declaration { literal, expr, size } => {
            let n = sh.stack_size + 8 * size;
            let sc2 = bind_scopes(sh.scopes, literal@, n as i64);
            assert(sc2.drop_last() =~= sh.scopes.drop_last());
        },
        StatementNode::Scope { statements } => {
            lemma_scope_restores(statements, sh, fns);
        },
        StatementNode::If { expr, scope } => {
            lemma_lower_keeps_frame(*scope, sh, fns);
        },
        StatementNode::While { expr, scope } => {
            lemma_lower_keeps_frame(*scope, Shape { loops: sh.loops + 1, ..sh }, fns);
        },
        _ => {},
    }
}

/// Lowering a sequence of statements: as for one statement.
pub proof fn lemma_lower_stmts_keeps_frame(stmts: Vec<StatementNode>, n: int, sh: Shape, fns: Seq<Seq<char>>)
    requires
        lower_stmts(stmts, n, sh, fns) is Some,
    ensures
        ({
            let sh2 = lower_stmts(stmts, n, sh, fns).unwrap().0;
            &&& sh2.scopes.len() == sh.scopes.len()
            &&& sh2.scopes.drop_last() == sh.scopes.drop_last()
            &&& sh.scopes.len() > 0 ==> sh2.scopes.last().created == sh.scopes.last().created
            &&& sh.stack_size <= sh2.stack_size <= sh.stack_size + 8 * stmts_weight(stmts, n)
            &&& sh2.loops == sh.loops
        }),
    decreases stmts, n,
{
    if n <= 0 || n > stmts@.len() {
    } else {
        lemma_lower_stmts_keeps_frame(stmts, n - 1, sh, fns);
        let (s1, f1) = lower_stmts(stmts, n - 1, sh, fns).unwrap();
        lemma_lower_keeps_frame(stmts@[n - 1], s1, f1);
    }
}

/// A block leaves the bookkeeping exactly as it found it: every word pushed
/// inside it is popped when it closes, and its bindings are gone.
pub proof fn lemma_scope_restores(statements: Vec<StatementNode>, sh: Shape, fns: Seq<Seq<char>>)
    requires
        lower_stmt(StatementNode::Scope { statements }, sh, fns) is Some,
    ensures
        lower_stmt(StatementNode::Scope { statements }, sh, fns).unwrap().0 == sh,
    decreases statements, statements@.len() + 1,
{
    let o = open_shape(sh);
    lemma_lower_stmts_keeps_frame(statements, statements@.len() as int, o, fns);
    let b = lower_stmts(statements, statements@.len() as int, o, fns).unwrap().0;
    assert(o.scopes.drop_last() =~= sh.scopes);
    assert(close_shape(b).scopes =~= sh.scopes);
}

/// Once a statement fails, the sequence containing it fails.
pub proof fn lemma_lower_stmts_fails(stmts: Vec<StatementNode>, i: int, n: int, sh: Shape, fns: Seq<Seq<char>>)
    requires
        0 <= i <= n <= stmts@.len(),
        lower_stmts(stmts, i, sh, fns) is None,
    ensures
        lower_stmts(stmts, n, sh, fns) is None,
    decreases n - i,
{
    if i < n {
        lemma_lower_stmts_fails(stmts, i, n - 1, sh, fns);
    }
}

pub proof fn lemma_stmts_weight_mono(stmts: Vec<StatementNode>, i: int, n: int)
    requires
        0 <= i <= n <= stmts@.len(),
    ensures
        stmts_weight(stmts, i) <= stmts_weight(stmts, n),
    decreases n - i,
{
    if i < n {
        lemma_stmts_weight_mono(stmts, i, n - 1);
    }
}

/// Declaring the names of the first `n` top-level functions, in order;
/// `None` if one is declared twice.
pub open spec fn register_functions(stmts: Vec<StatementNode>, n: int, fns: Seq<Seq<char>>) -> Option<Seq<Seq<char>>>
    decreases n,
{
    if n <= 0 || n > stmts@.len() {
        Some(fns)
    } else {
        match register_functions(stmts, n - 1, fns) {
            Some(f1) => match stmts@[n - 1] {
                StatementNode::Function { name, scope, args } => {
                    if f1.contains(name@) { None } else { Some(f1.push(name@)) }
                },
                _ => Some(f1),
            },
            None => None,
        }
    }
}

/// Lowering the bodies of the first `n` top-level functions, in order.
pub open spec fn lower_functions(stmts: Vec<StatementNode>, n: int, fns: Seq<Seq<char>>) -> Option<Seq<Seq<char>>>
    decreases n,
{
    if n <= 0 || n > stmts@.len() {
        Some(fns)
    } else {
        match lower_functions(stmts, n - 1, fns) {
            Some(f1) => match stmts@[n - 1] {
                StatementNode::Function { name, scope, args } => {
                    match lower_stmt(*scope, param_shape(args@), f1) {
                        Some((b, f2)) => Some(f2),
                        None => None,
                    }
                },
                _ => Some(f1),
            },
            None => None,
        }
    }
}

/// Lowering the first `n` top-level statements that are no function
/// definitions, in order.
pub open spec fn lower_top(stmts: Vec<StatementNode>, n: int, sh: Shape, fns: Seq<Seq<char>>) -> Option<(Shape, Seq<Seq<char>>)>
    decreases n,
{
    if n <= 0 || n > stmts@.len() {
        Some((sh, fns))
    } else {
        match lower_top(stmts, n - 1, sh, fns) {
            Some((s1, f1)) => match stmts@[n - 1] {
                StatementNode::Function { .. } => Some((s1, f1)),
                _ => lower_stmt(stmts@[n - 1], s1, f1),
            },
            None => None,
        }
    }
}

/// A program lowers: its function names are distinct and new, every function
/// body lowers with all of them declared, and then so do the other top-level
/// statements.
pub open spec fn program_lowers(stmts: Vec<StatementNode>, sh: Shape, fns: Seq<Seq<char>>) -> bool {
    let n = stmts@.len() as int;
    match register_functions(stmts, n, fns) {
        Some(f1) => match lower_functions(stmts, n, f1) {
            Some(f2) => lower_top(stmts, n, sh, f2) is Some,
            None => false,
        },
        None => false,
    }
}

pub proof fn lemma_register_fails(stmts: Vec<StatementNode>, i: int, n: int, fns: Seq<Seq<char>>)
    requires
        0 <= i <= n <= stmts@.len(),
        register_functions(stmts, i, fns) is None,
    ensures
        register_functions(stmts, n, fns) is None,
    decreases n - i,
{
    if i < n {
        lemma_register_fails(stmts, i, n - 1, fns);
    }
}

pub proof fn lemma_lower_functions_fails(stmts: Vec<StatementNode>, i: int, n: int, fns: Seq<Seq<char>>)
    requires
        0 <= i <= n <= stmts@.len(),
        lower_functions(stmts, i, fns) is None,
    ensures
        lower_functions(stmts, n, fns) is None,
    decreases n - i,
{
    if i < n {
        lemma_lower_functions_fails(stmts, i, n - 1, fns);
    }
}

pub proof fn lemma_lower_top_fails(stmts: Vec<StatementNode>, i: int, n: int, sh: Shape, fns: Seq<Seq<char>>)
    requires
        0 <= i <= n <= stmts@.len(),
        lower_top(stmts, i, sh, fns) is None,
    ensures
        lower_top(stmts, n, sh, fns) is None,
    decreases n - i,
{
    if i < n {
        lemma_lower_top_fails(stmts, i, n - 1, sh, fns);
    }
}

/// Every operator in the tree is a binary operator.
pub open spec fn expr_wf(e: Expression) -> bool
    decreases e, 0int,
{
    match e {
        Expression::Term(t) => term_wf(t),
        Expression::Binary { operator, left, right } => is_operator(operator@) && expr_wf(*left) && expr_wf(*right),
    }
}

pub open spec fn term_wf(t: Term) -> bool
    decreases t, 0int,
{
    match t {
        Term::Identifier { name, index_expr, is_ref } => match index_expr {
            Some(ix) => expr_wf(*ix),
            None => true,
        },
        Term::FunctionCall(name, args) => args_wf(args, args@.len() as int),
        _ => true,
    }
}

pub open spec fn args_wf(args: Vec<Expression>, n: int) -> bool
    decreases args, n,
{
    if n <= 0 || n > args@.len() {
        true
    } else {
        args_wf(args, n - 1) && expr_wf(args@[n - 1])
    }
}

pub proof fn lemma_args_wf_push(args: Vec<Expression>, more: Vec<Expression>, n: int)
    requires
        0 <= n <= args@.len(),
        args@.len() < more@.len(),
        args@ == more@.subrange(0, args@.len() as int),
    ensures
        args_wf(args, n) == args_wf(more, n),
    decreases n,
{
    if n > 0 {
        lemma_args_wf_push(args, more, n - 1);
        assert(args@[n - 1] == more@[n - 1]);
    }
}

/// A statement as the parser builds it: arrays have a positive size, every
/// body is a block, and every expression is well formed.
pub open spec fn stmt_wf(s: StatementNode) -> bool
    decreases s, 0int,
{
    match s {
        StatementNode::Declaration { literal, expr, size } => 1 <= size <= i32::MAX && expr_wf(expr),
        StatementNode::Return { expr } => expr_wf(expr),
        StatementNode::Scope { statements } => stmts_wf(statements, statements@.len() as int),
        StatementNode::If { expr, scope } => expr_wf(expr) && *scope is Scope && stmt_wf(*scope),
        StatementNode::While { expr, scope } => expr_wf(expr) && *scope is Scope && stmt_wf(*scope),
        StatementNode::Assignment { literal, expr, index_expr } => expr_wf(expr) && match index_expr {
            Some(ix) => expr_wf(ix),
            None => true,
        },
        StatementNode::Break => true,
        StatementNode::Print { expr, len } => expr_wf(expr) && expr_wf(len),
        StatementNode::Read { ptr, len } => expr_wf(ptr) && expr_wf(len),
        StatementNode::Function { name, scope, args } => *scope is Scope && stmt_wf(*scope),
    }
}

pub open spec fn stmts_wf(stmts: Vec<StatementNode>, n: int) -> bool
    decreases stmts, n,
{
    if n <= 0 || n > stmts@.len() {
        true
    } else {
        stmts_wf(stmts, n - 1) && stmt_wf(stmts@[n - 1])
    }
}

pub proof fn lemma_stmts_wf_push(stmts: Vec<StatementNode>, more: Vec<StatementNode>, n: int)
    requires
        0 <= n <= stmts@.len(),
        stmts@.len() < more@.len(),
        stmts@ == more@.subrange(0, stmts@.len() as int),
    ensures
        stmts_wf(stmts, n) == stmts_wf(more, n),
    decreases n,
{
    if n > 0 {
        lemma_stmts_wf_push(stmts, more, n - 1);
        assert(stmts@[n - 1] == more@[n - 1]);
    }
}

} // verus!
