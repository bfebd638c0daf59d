//! Lowering the syntax tree to assembly text through the context.
use vstd::prelude::*;
use crate::ast::{
    args_ok, args_weight, expr_ok, expr_weight, lemma_lower_keeps_frame,
    lemma_lower_stmts_fails, lemma_lower_stmts_keeps_frame, lemma_stmts_weight_mono, lower_stmt,
    lower_stmts, open_shape, close_shape, param_shape, param_vars, param_offset, shape,
    stmt_weight, stmts_weight, term_ok, term_weight, Expression, IdentifierValueType, Shape,
    StatementNode, Term, ProgramNode, program_lowers, register_functions, lower_functions, lower_top,
    lemma_register_fails, lemma_lower_functions_fails, lemma_lower_top_fails,
};
use crate::context::{scope_lookup, with_top, FrameV, frame_lookup, repeat, label_text, lemma_frames_eq, lemma_with_top, top, with_stack, emit, CtxV, ParsingContext, MAX_STACK};
use crate::error::CompilationError;
use crate::text::{concat, decimal_string, signed_decimal_string};
use crate::token::{is_operator, Tok, Token};

verus! {

/// Counters and stack leave room for lowering something of weight `w`.
pub open spec fn budget(c: CtxV, w: nat) -> bool {
    &&& c.labels + w <= u64::MAX
    &&& c.string_counter + w <= u64::MAX
    &&& c.frames.len() >= 1
    &&& top(c).stack_size + 8 * w <= MAX_STACK
}

/// Only appended to: the output, the string pool and the counters grow, the
/// counters by at most `w`.
pub open spec fn grows(o: CtxV, f: CtxV, w: nat) -> bool {
    &&& o.output.is_prefix_of(f.output)
    &&& o.strings.is_prefix_of(f.strings)
    &&& o.labels <= f.labels <= o.labels + w
    &&& o.string_counter <= f.string_counter <= o.string_counter + w
}

/// The jump that a comparison operator's materialisation takes when it holds.
pub open spec fn jump_of(op: Tok) -> Seq<char> {
    match op {
        Tok::LessThan => "jl"@,
        Tok::GreaterThan => "jg"@,
        _ => "je"@,
    }
}

pub open spec fn is_comparison(op: Tok) -> bool {
    op is LessThan || op is GreaterThan || op is Equals
}

/// A line of text: the characters and a newline.
pub open spec fn line(s: Seq<char>) -> Seq<char> {
    s + seq!['\n']
}

/// The code that turns the flags of `cmp rax, rdi` into 0 or 1 in `rdi`, with
/// labels `t` (true), `f` (false) and `e` (join).
pub open spec fn comparison_code(j: Seq<char>, t: Seq<char>, f: Seq<char>, e: Seq<char>) -> Seq<char> {
    line("    cmp rax, rdi"@) + line("    "@ + j + " "@ + t)
        + line(f + ":"@) + line("    mov rdi, 0"@) + line("    jmp "@ + e)
        + line(t + ":"@) + line("    mov rdi, 1"@)
        + line(e + ":"@)
}

pub open spec fn ends_with(s: Seq<char>, suffix: Seq<char>) -> bool {
    s.len() >= suffix.len() && s.subrange(s.len() - suffix.len(), s.len() as int) == suffix
}

/// Text emitted by lowering an expression, the label counter afterwards, and
/// the (label, contents) entries it adds to the string pool.
pub struct Emitted {
    pub text: Seq<char>,
    pub labels: int,
    pub pool: Seq<(Seq<char>, Seq<char>)>,
}

/// The operand text of a frame slot.
pub open spec fn slot_text(offset: i64) -> Seq<char> {
    if offset >= 0 {
        "rbp - "@ + crate::text::decimal(offset as nat)
    } else {
        "rbp + "@ + crate::text::decimal((-offset) as nat)
    }
}

/// Reading an identifier at address `addr` in the given mode.
pub open spec fn access_text(mode: IdentifierValueType, addr: Seq<char>) -> Seq<char> {
    match mode {
        IdentifierValueType::Value => line("    mov rdi, ["@ + addr + "]"@ + ""@),
        IdentifierValueType::Dereference => line("    mov rdi, ["@ + addr + "]"@ + ""@) + line("    mov rdi, [rdi]"@),
        IdentifierValueType::Reference => line("    lea rdi, ["@ + addr + "]"@ + ""@),
    }
}

/// The code combining `rax` (left) and `rdi` (right), with `l` labels used so far.
pub open spec fn operator_text(op: Tok, l: int) -> Seq<char> {
    match op {
        Tok::Plus => line("    add rax, rdi"@) + line("    mov rdi, rax"@),
        Tok::Minus => line("    sub rax, rdi"@) + line("    mov rdi, rax"@),
        Tok::Star => line("    mul rdi"@) + line("    mov rdi, rax"@),
        Tok::Slash => line("    mov rdx, 0"@) + line("    div rdi"@) + line("    mov rdi, rax"@),
        _ => comparison_code(
            jump_of(op),
            label_text("LABEL"@, l + 1),
            label_text("LABEL"@, l + 2),
            label_text("LABEL"@, l + 3),
        ),
    }
}

/// What lowering an expression emits, given the visible scopes and the label
/// and string counters before it.
pub open spec fn expr_emit(e: Expression, scopes: Seq<crate::context::ScopeV>, l: int, sc: int) -> Emitted
    decreases e, 0int,
{
    match e {
        Expression::Term(t) => term_emit(t, scopes, l, sc),
        Expression::Binary { operator, left, right } => {
            let a = expr_emit(*left, scopes, l, sc);
            let b = expr_emit(*right, scopes, a.labels, sc + a.pool.len());
            Emitted {
                text: a.text + line("    push "@ + "rdi"@) + b.text + line("    pop "@ + "rax"@) + operator_text(operator@, b.labels),
                labels: b.labels + if is_comparison(operator@) { 3int } else { 0int },
                pool: a.pool + b.pool,
            }
        },
    }
}

pub open spec fn term_emit(t: Term, scopes: Seq<crate::context::ScopeV>, l: int, sc: int) -> Emitted
    decreases t, 0int,
{
    match t {
        Term::Int(v) => Emitted { text: line("    mov rdi, "@ + crate::text::signed_decimal(v as int)), labels: l, pool: seq![] },
        Term::String(v) => {
            let lab = label_text("STRING"@, sc + 1);
            Emitted { text: line("    mov rdi, "@ + lab), labels: l, pool: seq![(lab, v@)] }
        },
        Term::Identifier { name, index_expr, is_ref } => {
            let base = slot_text(frame_lookup(scopes, name@).unwrap());
            match index_expr {
                Some(ix) => {
                    let a = expr_emit(*ix, scopes, l, sc);
                    Emitted {
                        text: a.text + line("    mov rax, rdi"@) + access_text(is_ref, base + " + rax * 8"@),
                        labels: a.labels,
                        pool: a.pool,
                    }
                },
                None => Emitted { text: access_text(is_ref, base), labels: l, pool: seq![] },
            }
        },
        Term::FunctionCall(name, args) => {
            let a = args_emit(args, args@.len() as int, scopes, l, sc);
            Emitted {
                text: a.text + line("    call "@ + name@) + repeat(line("    pop "@ + "rsi"@), args@.len()),
                labels: a.labels,
                pool: a.pool,
            }
        },
    }
}

/// What evaluating and pushing the first `n` arguments emits.
pub open spec fn args_emit(args: Vec<Expression>, n: int, scopes: Seq<crate::context::ScopeV>, l: int, sc: int) -> Emitted
    decreases args, n,
{
    if n <= 0 || n > args@.len() {
        Emitted { text: seq![], labels: l, pool: seq![] }
    } else {
        let p = args_emit(args, n - 1, scopes, l, sc);
        let e = expr_emit(args@[n - 1], scopes, p.labels, sc + p.pool.len());
        Emitted { text: p.text + e.text + line("    push "@ + "rdi"@), labels: e.labels, pool: p.pool + e.pool }
    }
}

/// Context `f` is context `o` with `e` emitted.
pub open spec fn emitted(o: CtxV, f: CtxV, e: Emitted) -> bool {
    &&& f.output == o.output + e.text
    &&& f.labels == e.labels
    &&& f.strings == o.strings + e.pool
    &&& f.string_counter == o.string_counter + e.pool.len()
}

/// Emits `a` followed by `b` as one line.
fn emit2(ctx: &mut ParsingContext, a: &str, b: &str)
    ensures
        final(ctx).wf() == old(ctx).wf(),
        final(ctx)@ == (CtxV { output: old(ctx)@.output + line(a@ + b@), ..old(ctx)@ }),
{
    let l = concat(a, b);
    ctx.push_line(l.as_str());
    assert(final(ctx)@.output =~= old(ctx)@.output + line(a@ + b@));
}

/// The address of a frame slot: below the base pointer for locals, above it
/// for parameters.
pub fn slot_address(offset: i64) -> (r: String)
    ensures
        offset >= 0 ==> r@ == "rbp - "@ + crate::text::decimal(offset as nat),
        offset < 0 ==> r@ == "rbp + "@ + crate::text::decimal((-offset) as nat),
{
    if offset < 0 {
        let m: u64 = if offset == i64::MIN { 9223372036854775808u64 } else { (-offset) as u64 };
        let d = decimal_string(m);
        concat("rbp + ", d.as_str())
    } else {
        let d = decimal_string(offset as u64);
        concat("rbp - ", d.as_str())
    }
}

/// Emits `a`, `b`, `c`, `d` as one line.
fn emit4(ctx: &mut ParsingContext, a: &str, b: &str, c: &str, d: &str)
    ensures
        final(ctx).wf() == old(ctx).wf(),
        final(ctx)@ == (CtxV { output: old(ctx)@.output + line(a@ + b@ + c@ + d@), ..old(ctx)@ }),
{
    let ab = concat(a, b);
    let abc = concat(ab.as_str(), c);
    let l = concat(abc.as_str(), d);
    ctx.push_line(l.as_str());
    assert(final(ctx)@.output =~= old(ctx)@.output + line(a@ + b@ + c@ + d@));
}

/// Emits the comparison idiom with three fresh labels.
fn emit_comparison(ctx: &mut ParsingContext, jump: &str)
    requires
        old(ctx)@.labels + 3 <= u64::MAX,
    ensures
        final(ctx).wf() == old(ctx).wf(),
        final(ctx)@ == (CtxV {
            output: old(ctx)@.output + comparison_code(
                jump@,
                label_text("LABEL"@, old(ctx)@.labels + 1),
                label_text("LABEL"@, old(ctx)@.labels + 2),
                label_text("LABEL"@, old(ctx)@.labels + 3),
            ),
            labels: old(ctx)@.labels + 3,
            ..old(ctx)@
        }),
{
    let t = ctx.new_label();
    let f = ctx.new_label();
    let e = ctx.new_label();
    let ghost o = ctx@.output;
    ctx.push_line("    cmp rax, rdi");
    emit4(ctx, "    ", jump, " ", t.as_str());
    emit2(ctx, f.as_str(), ":");
    ctx.push_line("    mov rdi, 0");
    emit2(ctx, "    jmp ", e.as_str());
    emit2(ctx, t.as_str(), ":");
    ctx.push_line("    mov rdi, 1");
    emit2(ctx, e.as_str(), ":");
    assert(ctx@.output =~= o + comparison_code(jump@, t@, f@, e@));
}

/// The error for a variable that is read but not declared.
fn undeclared(name: &String) -> (r: CompilationError)
    ensures
        r.message@ == "Undeclared variable "@ + name@,
{
    let m = concat("Undeclared variable ", name.as_str());
    CompilationError::new(m.as_str())
}

proof fn lemma_grows_trans(a: CtxV, b: CtxV, c: CtxV, w1: nat, w2: nat, w: nat)
    requires
        grows(a, b, w1),
        grows(b, c, w2),
        w1 + w2 <= w,
    ensures
        grows(a, c, w),
{
    assert(a.output.is_prefix_of(c.output)) by {
        assert(c.output.subrange(0, a.output.len() as int) =~= b.output.subrange(0, a.output.len() as int));
    }
    assert(a.strings.is_prefix_of(c.strings)) by {
        assert(c.strings.subrange(0, a.strings.len() as int) =~= b.strings.subrange(0, a.strings.len() as int));
    }
}

proof fn lemma_grows_emit(a: CtxV, b: CtxV, w: nat)
    requires
        b.strings == a.strings,
        b.labels == a.labels,
        b.string_counter == a.string_counter,
        a.output.is_prefix_of(b.output),
    ensures
        grows(a, b, w),
{
}

proof fn lemma_prefix_append<A>(a: Seq<A>, t: Seq<A>)
    ensures
        a.is_prefix_of(a + t),
{
    assert((a + t).subrange(0, a.len() as int) =~= a);
}

/// An identifier term: the slot's value, the value it points to, or its address.
#[verifier::rlimit(60)]
fn identifier_to_asm(t: &Term, parsing_context: &mut ParsingContext) -> (r: Result<(), CompilationError>)
        requires
            old(parsing_context).wf(),
            budget(old(parsing_context)@, term_weight(*t)),
            *t is Identifier,
        ensures
            (r is Ok) == term_ok(*t, top(old(parsing_context)@).scopes, old(parsing_context)@.functions),
            r is Ok ==> emitted(
                old(parsing_context)@,
                final(parsing_context)@,
                term_emit(*t, top(old(parsing_context)@).scopes, old(parsing_context)@.labels, old(parsing_context)@.string_counter),
            ),
            r is Ok ==> {
                &&& final(parsing_context).wf()
                &&& final(parsing_context)@.frames == old(parsing_context)@.frames
                &&& final(parsing_context)@.functions == old(parsing_context)@.functions
                &&& grows(old(parsing_context)@, final(parsing_context)@, term_weight(*t))
            },
        term_error(*t, old(parsing_context)@) matches Some(m) ==> (r matches Err(e) && e.message@ == m
            && final(parsing_context)@ == old(parsing_context)@),
        decreases t, 0int,
{
    let ghost o = parsing_context@;
    proof {
        parsing_context.lemma_wf();
    }
    let (name, index_expr, is_ref) = match t {
        Term::Identifier { name, index_expr, is_ref } => (name, index_expr, is_ref),
        _ => { proof { assert(false); } return Err(CompilationError::new("expected an identifier")); },
    };
    let var = match parsing_context.get_var(name) {
        Some(v) => v,
        None => {
            return Err(undeclared(name));
        },
    };
    let base = slot_address(var.stack_position);
    let ghost o2 = parsing_context@;
    let addr = match index_expr {
        Some(ix) => {
            match (**ix).to_asm(parsing_context) {
                Ok(()) => {},
                Err(e) => {
                    return Err(e);
                },
            }
            parsing_context.push_line("    mov rax, rdi");
            concat(base.as_str(), " + rax * 8")
        },
        None => base,
    };
    let ghost o3 = parsing_context@;
    let ghost sc = top(o).scopes;
    proof {
        assert(base@ == slot_text(frame_lookup(sc, name@).unwrap()));
        match index_expr {
            Some(ix) => {
                let a = expr_emit(**ix, sc, o.labels, o.string_counter);
                assert(addr@ == base@ + " + rax * 8"@);
                assert(o3.output == o.output + a.text + line("    mov rax, rdi"@)) by {
                    assert(o3.output =~= o.output + a.text + line("    mov rax, rdi"@));
                }
                assert(o3.labels == a.labels);
                assert(o3.strings == o.strings + a.pool);
            },
            None => {
                assert(o3 == o);
            },
        }
    }
    match is_ref {
        IdentifierValueType::Value => {
            emit4(parsing_context, "    mov rdi, [", addr.as_str(), "]", "");
        },
        IdentifierValueType::Dereference => {
            emit4(parsing_context, "    mov rdi, [", addr.as_str(), "]", "");
            parsing_context.push_line("    mov rdi, [rdi]");
        },
        IdentifierValueType::Reference => {
            emit4(parsing_context, "    lea rdi, [", addr.as_str(), "]", "");
        },
    }
    proof {
        let f = parsing_context@;
        let acc = access_text(*is_ref, addr@);
        assert(f.output =~= o3.output + acc);
        match index_expr {
            Some(ix) => {
                let a = expr_emit(**ix, sc, o.labels, o.string_counter);
                assert(f.output =~= o.output + (a.text + line("    mov rax, rdi"@) + access_text(*is_ref, base@ + " + rax * 8"@)));
            },
            None => {
                assert(f.output =~= o.output + access_text(*is_ref, base@));
                assert(f.strings =~= o.strings + seq![]);
            },
        }
        assert(o3.output.is_prefix_of(f.output)) by {
            assert(f.output.subrange(0, o3.output.len() as int) =~= o3.output);
        }
        assert(o.output.is_prefix_of(o3.output)) by {
            if index_expr is None {
                assert(o3 == o);
                assert(o3.output.subrange(0, o.output.len() as int) =~= o.output);
            } else {
                assert(o3.output.subrange(0, o.output.len() as int) =~= o.output.subrange(0, o.output.len() as int));
            }
        }
        assert(f.output.subrange(0, o.output.len() as int) =~= o3.output.subrange(0, o.output.len() as int));
    }
    Ok(())
    
}

/// A call: arguments evaluated and pushed in order, the call, then the
/// arguments popped. The caller removes its own arguments so that every
/// expression leaves the stack as it found it: the left operand of a binary
/// expression waits on the stack while the right one is evaluated, and
/// arguments left behind by a call in the right operand would be popped in
/// its place.
#[verifier::rlimit(60)]
fn call_to_asm(t: &Term, parsing_context: &mut ParsingContext) -> (r: Result<(), CompilationError>)
        requires
            old(parsing_context).wf(),
            budget(old(parsing_context)@, term_weight(*t)),
            *t is FunctionCall,
        ensures
            (r is Ok) == term_ok(*t, top(old(parsing_context)@).scopes, old(parsing_context)@.functions),
            r is Ok ==> emitted(
                old(parsing_context)@,
                final(parsing_context)@,
                term_emit(*t, top(old(parsing_context)@).scopes, old(parsing_context)@.labels, old(parsing_context)@.string_counter),
            ),
            r is Ok ==> {
                &&& final(parsing_context).wf()
                &&& final(parsing_context)@.frames == old(parsing_context)@.frames
                &&& final(parsing_context)@.functions == old(parsing_context)@.functions
                &&& grows(old(parsing_context)@, final(parsing_context)@, term_weight(*t))
            },
        term_error(*t, old(parsing_context)@) matches Some(m) ==> (r matches Err(e) && e.message@ == m
            && final(parsing_context)@ == old(parsing_context)@),
        decreases t, 0int,
{
    let ghost o = parsing_context@;
    proof {
        parsing_context.lemma_wf();
    }
    let (name, args) = match t {
        Term::FunctionCall(name, args) => (name, args),
        _ => { proof { assert(false); } return Err(CompilationError::new("expected a call")); },
    };
    if !parsing_context.function_exists(name) {
        return Err(CompilationError::new("undefined function"));
    }
    let mut i: usize = 0;
    while i < args.len()
        invariant
            i <= args@.len(),
            parsing_context.wf(),
            top(parsing_context@).stack_size == top(o).stack_size + 8 * i,
            parsing_context@.frames.drop_last() == o.frames.drop_last(),
            parsing_context@.frames.len() == o.frames.len(),
            top(parsing_context@).scopes == top(o).scopes,
            top(parsing_context@).loop_labels == top(o).loop_labels,
            parsing_context@.functions == o.functions,
            grows(o, parsing_context@, args_weight(*args, i as int)),
            args_ok(*args, i as int, top(o).scopes, o.functions),
            budget(o, term_weight(*t)),
            args_weight(*args, i as int) + 1 <= term_weight(*t),
            i <= args_weight(*args, i as int),
            *t == Term::FunctionCall(*name, *args),
            o == old(parsing_context)@,
            o.frames.len() >= 1,
            top(o).stack_size >= 0,
            o.functions.contains(name@),
            emitted(o, parsing_context@, args_emit(*args, i as int, top(o).scopes, o.labels, o.string_counter)),
        decreases args@.len() - i,
    {
        let ghost before = parsing_context@;
        proof {
            assert(args_weight(*args, i as int + 1) == args_weight(*args, i as int) + 1 + expr_weight(args@[i as int]));
            lemma_args_weight_mono(*args, i as int + 1, args@.len() as int);
            assert(*t == Term::FunctionCall(*name, *args));
            assert(decreases_to!(*t => *args));
            assert(decreases_to!(*args => args@));
            assert(decreases_to!(args@ => args@[i as int]));
            assert(budget(before, expr_weight(args@[i as int])));
        }
        match args[i].to_asm(parsing_context) {
            Ok(()) => {},
            Err(e) => {
                proof {
                    assert(!expr_ok(args@[i as int], top(o).scopes, o.functions));
                    assert(!args_ok(*args, i as int + 1, top(o).scopes, o.functions));
                    if args_ok(*args, args@.len() as int, top(o).scopes, o.functions) {
                        lemma_args_ok_prefix(*args, i as int + 1, args@.len() as int, top(o).scopes, o.functions);
                    }
                }
                return Err(e);
            },
        }
        let ghost mid = parsing_context@;
        parsing_context.push_on_stack("rdi");
        proof {
            let a = parsing_context@;
            lemma_with_top(emit(mid, "    push rdi"@ + seq!['\n']), with_stack(top(mid), top(mid).stack_size + 8));
            lemma_grows_emit(mid, a, 0);
            lemma_grows_trans(before, mid, a, expr_weight(args@[i as int]), 0, expr_weight(args@[i as int]));
            lemma_grows_trans(o, before, a, args_weight(*args, i as int), expr_weight(args@[i as int]), args_weight(*args, i as int + 1));
            assert(args_ok(*args, i as int + 1, top(o).scopes, o.functions));
            let pe = args_emit(*args, i as int, top(o).scopes, o.labels, o.string_counter);
            let ee = expr_emit(args@[i as int], top(o).scopes, pe.labels, o.string_counter + pe.pool.len());
            assert(a.output =~= o.output + (pe.text + ee.text + line("    push "@ + "rdi"@)));
            assert(a.strings =~= o.strings + (pe.pool + ee.pool));
            lemma_prefix_append(before.output, seq![]);
            assert(before.output.is_prefix_of(a.output)) by {
                assert(a.output.subrange(0, before.output.len() as int) =~= before.output);
            }
        }
        i = i + 1;
    }
    let ghost oc = parsing_context@;
    emit2(parsing_context, "    call ", name.as_str());
    let ghost ae = args_emit(*args, args@.len() as int, top(o).scopes, o.labels, o.string_counter);
    proof {
        assert(repeat(line("    pop "@ + "rsi"@), 0) =~= seq![]);
        assert(parsing_context@.output =~= o.output + ae.text + line("    call "@ + name@) + repeat(line("    pop "@ + "rsi"@), 0));
    }
    let mut k: usize = 0;
    while k < args.len()
        invariant
            k <= args@.len(),
            parsing_context.wf(),
            top(parsing_context@).stack_size == top(o).stack_size + 8 * (args@.len() - k),
            parsing_context@.frames.drop_last() == o.frames.drop_last(),
            parsing_context@.frames.len() == o.frames.len(),
            top(parsing_context@).scopes == top(o).scopes,
            top(parsing_context@).loop_labels == top(o).loop_labels,
            parsing_context@.functions == o.functions,
            grows(o, parsing_context@, args_weight(*args, args@.len() as int)),
            o.frames.len() >= 1,
            top(o).stack_size >= 0,
            o == old(parsing_context)@,
            *t == Term::FunctionCall(*name, *args),
            args_ok(*args, args@.len() as int, top(o).scopes, o.functions),
            ae == args_emit(*args, args@.len() as int, top(o).scopes, o.labels, o.string_counter),
            parsing_context@.output == o.output + ae.text + line("    call "@ + name@) + repeat(line("    pop "@ + "rsi"@), k as nat),
            parsing_context@.labels == ae.labels,
            parsing_context@.strings == o.strings + ae.pool,
            parsing_context@.string_counter == o.string_counter + ae.pool.len(),
        decreases args@.len() - k,
    {
        let ghost mid = parsing_context@;
        parsing_context.pop_from_stack("rsi");
        proof {
            let a = parsing_context@;
            lemma_with_top(emit(mid, "    pop rsi"@ + seq!['\n']), with_stack(top(mid), top(mid).stack_size - 8));
            lemma_prefix_append(mid.output, "    pop rsi"@ + seq!['\n']);
            lemma_grows_emit(mid, a, 0);
            lemma_grows_trans(o, mid, a, args_weight(*args, args@.len() as int), 0, args_weight(*args, args@.len() as int));
            assert(a.output =~= o.output + ae.text + line("    call "@ + name@) + repeat(line("    pop "@ + "rsi"@), (k + 1) as nat));
        }
        k = k + 1;
    }
    proof {
        lemma_frames_eq(parsing_context@.frames, o.frames);
        assert(k == args@.len());
        let te = term_emit(*t, top(o).scopes, o.labels, o.string_counter);
        assert(te.text == ae.text + line("    call "@ + name@) + repeat(line("    pop "@ + "rsi"@), args@.len()));
        assert(te.labels == ae.labels);
        assert(te.pool == ae.pool);
        assert(parsing_context@.output == o.output + te.text);
        assert(parsing_context@.labels == te.labels);
        assert(parsing_context@.strings == o.strings + te.pool);
        assert(parsing_context@.string_counter == o.string_counter + te.pool.len());
    }
    Ok(())
}

/// Emits the code that combines `rax` (left) and `rdi` (right) into `rdi`.
fn emit_operator(parsing_context: &mut ParsingContext, operator: &Token) -> (r: Result<(), CompilationError>)
    requires
        old(parsing_context)@.labels + 3 <= u64::MAX,
    ensures
        (r is Ok) == is_operator(operator@),
        r is Ok ==> {
            &&& final(parsing_context).wf() == old(parsing_context).wf()
            &&& final(parsing_context)@.frames == old(parsing_context)@.frames
            &&& final(parsing_context)@.functions == old(parsing_context)@.functions
            &&& grows(old(parsing_context)@, final(parsing_context)@, 3)
            &&& final(parsing_context)@.output == old(parsing_context)@.output + operator_text(operator@, old(parsing_context)@.labels)
            &&& final(parsing_context)@.labels == old(parsing_context)@.labels + if is_comparison(operator@) { 3int } else { 0int }
            &&& final(parsing_context)@.strings == old(parsing_context)@.strings
            &&& final(parsing_context)@.string_counter == old(parsing_context)@.string_counter
        },
{
    let ghost o = parsing_context@;
    match operator {
        Token::Plus => {
            parsing_context.push_line("    add rax, rdi");
            parsing_context.push_line("    mov rdi, rax");
        },
        Token::Minus => {
            parsing_context.push_line("    sub rax, rdi");
            parsing_context.push_line("    mov rdi, rax");
        },
        Token::Star => {
            parsing_context.push_line("    mul rdi");
            parsing_context.push_line("    mov rdi, rax");
        },
        Token::Slash => {
            parsing_context.push_line("    mov rdx, 0");
            parsing_context.push_line("    div rdi");
            parsing_context.push_line("    mov rdi, rax");
        },
        Token::LessThan => {
            emit_comparison(parsing_context, "jl");
        },
        Token::GreaterThan => {
            emit_comparison(parsing_context, "jg");
        },
        Token::Equals => {
            emit_comparison(parsing_context, "je");
        },
        _ => {
            return Err(CompilationError::new("invalid binary operator"));
        },
    }
    proof {
        let f = parsing_context@;
        assert(f.output =~= o.output + operator_text(operator@, o.labels));
        assert(f.output.subrange(0, o.output.len() as int) =~= o.output);
    }
    Ok(())
}

impl Expression {
    /// Emits code that leaves the expression's value in `rdi`: the left operand
    /// is held on the stack while the right one is evaluated.
    #[verifier::rlimit(60)]
    pub fn to_asm(&self, parsing_context: &mut ParsingContext) -> (r: Result<(), CompilationError>)
        requires
            old(parsing_context).wf(),
            budget(old(parsing_context)@, expr_weight(*self)),
        ensures
            (r is Ok) == expr_ok(*self, top(old(parsing_context)@).scopes, old(parsing_context)@.functions),
            r is Ok ==> emitted(
                old(parsing_context)@,
                final(parsing_context)@,
                expr_emit(*self, top(old(parsing_context)@).scopes, old(parsing_context)@.labels, old(parsing_context)@.string_counter),
            ),
            r is Ok ==> {
                &&& final(parsing_context).wf()
                &&& final(parsing_context)@.frames == old(parsing_context)@.frames
                &&& final(parsing_context)@.functions == old(parsing_context)@.functions
                &&& grows(old(parsing_context)@, final(parsing_context)@, expr_weight(*self))
            },
            r is Ok ==> match *self {
                Expression::Binary { operator, .. } => is_comparison(operator@) ==> ends_with(
                    final(parsing_context)@.output,
                    comparison_code(
                        jump_of(operator@),
                        label_text("LABEL"@, final(parsing_context)@.labels - 2),
                        label_text("LABEL"@, final(parsing_context)@.labels - 1),
                        label_text("LABEL"@, final(parsing_context)@.labels),
                    ),
                ),
                _ => true,
            },
        decreases self, 0int,
    {
        match self {
            Expression::Term(t) => t.to_asm(parsing_context),
            Expression::Binary { operator, left, right } => {
                let ghost o = parsing_context@;
                proof {
                    parsing_context.lemma_wf();
                }
                match (**left).to_asm(parsing_context) {
                    Ok(()) => {},
                    Err(e) => {
                        return Err(e);
                    },
                }
                let ghost o1 = parsing_context@;
                parsing_context.push_on_stack("rdi");
                let ghost o2 = parsing_context@;
                proof {
                    lemma_with_top(emit(o1, "    push rdi"@ + seq!['\n']), with_stack(top(o1), top(o1).stack_size + 8));
                    assert(top(o2).scopes == top(o).scopes);
                    assert(top(o2).stack_size == top(o).stack_size + 8);
                }
                match (**right).to_asm(parsing_context) {
                    Ok(()) => {},
                    Err(e) => {
                        return Err(e);
                    },
                }
                let ghost o3 = parsing_context@;
                parsing_context.pop_from_stack("rax");
                let ghost o4 = parsing_context@;
                proof {
                    lemma_with_top(emit(o3, "    pop rax"@ + seq!['\n']), with_stack(top(o3), top(o3).stack_size - 8));
                    assert(top(o4) =~= top(o));
                    lemma_frames_eq(o4.frames, o.frames);
                    lemma_prefix_append(o1.output, "    push rdi"@ + seq!['\n']);
                    lemma_prefix_append(o3.output, "    pop rax"@ + seq!['\n']);
                    lemma_grows_emit(o1, o2, 0);
                    lemma_grows_emit(o3, o4, 0);
                    lemma_grows_trans(o, o1, o2, expr_weight(**left), 0, expr_weight(**left));
                    lemma_grows_trans(o, o2, o3, expr_weight(**left), expr_weight(**right), expr_weight(**left) + expr_weight(**right));
                    lemma_grows_trans(o, o3, o4, expr_weight(**left) + expr_weight(**right), 0, expr_weight(**left) + expr_weight(**right));
                }
                match emit_operator(parsing_context, operator) {
                    Ok(()) => {},
                    Err(e) => {
                        return Err(e);
                    },
                }
                proof {
                    let f = parsing_context@;
                    lemma_grows_trans(o, o4, f, expr_weight(**left) + expr_weight(**right), 3, expr_weight(*self));
                    let a = expr_emit(**left, top(o).scopes, o.labels, o.string_counter);
                    let b = expr_emit(**right, top(o).scopes, a.labels, o.string_counter + a.pool.len());
                    assert(top(o2).scopes == top(o).scopes);
                    assert(f.output =~= o.output + (a.text + line("    push "@ + "rdi"@) + b.text + line("    pop "@ + "rax"@) + operator_text(operator@, b.labels)));
                    assert(f.strings =~= o.strings + (a.pool + b.pool));
                    if is_comparison(operator@) {
                        let code = comparison_code(
                            jump_of(operator@),
                            label_text("LABEL"@, f.labels - 2),
                            label_text("LABEL"@, f.labels - 1),
                            label_text("LABEL"@, f.labels),
                        );
                        assert(f.output.subrange(f.output.len() - code.len(), f.output.len() as int) =~= code);
                    }
                }
                Ok(())
            },
        }
    }
}

impl Term {
    /// Emits code that leaves the term's value in `rdi`.
    pub fn to_asm(&self, parsing_context: &mut ParsingContext) -> (r: Result<(), CompilationError>)
        requires
            old(parsing_context).wf(),
            budget(old(parsing_context)@, term_weight(*self)),
        ensures
            (r is Ok) == term_ok(*self, top(old(parsing_context)@).scopes, old(parsing_context)@.functions),
            r is Ok ==> emitted(
                old(parsing_context)@,
                final(parsing_context)@,
                term_emit(*self, top(old(parsing_context)@).scopes, old(parsing_context)@.labels, old(parsing_context)@.string_counter),
            ),
            r is Ok ==> {
                &&& final(parsing_context).wf()
                &&& final(parsing_context)@.frames == old(parsing_context)@.frames
                &&& final(parsing_context)@.functions == old(parsing_context)@.functions
                &&& grows(old(parsing_context)@, final(parsing_context)@, term_weight(*self))
            },
            term_error(*self, old(parsing_context)@) matches Some(m) ==> (r matches Err(e) && e.message@ == m
                && final(parsing_context)@ == old(parsing_context)@),
        decreases self, 1int,
    {
        let ghost o = parsing_context@;
        proof {
            parsing_context.lemma_wf();
        }
        match self {
            Term::Int(val) => {
                let d = signed_decimal_string(*val as i64);
                emit2(parsing_context, "    mov rdi, ", d.as_str());
                proof {
                    lemma_prefix_append(o.output, line("    mov rdi, "@ + d@));
                    assert(o.strings + seq![] =~= o.strings);
                }
                Ok(())
            },
            Term::String(val) => {
                let label = parsing_context.add_string(val.as_str());
                emit2(parsing_context, "    mov rdi, ", label.as_str());
                proof {
                    lemma_prefix_append(o.output, line("    mov rdi, "@ + label@));
                    lemma_prefix_append(o.strings, seq![(label@, val@)]);
                    assert(o.strings.push((label@, val@)) =~= o.strings + seq![(label@, val@)]);
                }
                Ok(())
            },
            Term::Identifier { .. } => identifier_to_asm(self, parsing_context),
            Term::FunctionCall(..) => call_to_asm(self, parsing_context),
        }
    }
}

proof fn lemma_args_weight_mono(args: Vec<Expression>, i: int, n: int)
    requires
        0 <= i <= n <= args@.len(),
    ensures
        args_weight(args, i) <= args_weight(args, n),
    decreases n - i,
{
    if i < n {
        lemma_args_weight_mono(args, i, n - 1);
    }
}

proof fn lemma_args_ok_prefix(args: Vec<Expression>, i: int, n: int, scopes: Seq<crate::context::ScopeV>, fns: Seq<Seq<char>>)
    requires
        0 <= i <= n <= args@.len(),
        args_ok(args, n, scopes, fns),
    ensures
        args_ok(args, i, scopes, fns),
    decreases n - i,
{
    if i < n {
        lemma_args_ok_prefix(args, i, n - 1, scopes, fns);
    }
}

/// What lowering a statement from context `o` to context `f` guarantees:
/// success exactly when the statement lowers, and then the bookkeeping the
/// lowering describes, with only the top frame changed.
pub open spec fn stmt_lowered(s: StatementNode, o: CtxV, f: CtxV, ok: bool, fwf: bool) -> bool {
    let res = lower_stmt(s, shape(top(o)), o.functions);
    &&& ok == res is Some
    &&& ok ==> {
        &&& fwf
        &&& grows(o, f, stmt_weight(s))
        &&& f.frames.len() == o.frames.len()
        &&& f.frames.drop_last() == o.frames.drop_last()
        &&& shape(top(f)) == res.unwrap().0
        &&& top(f).loop_labels == top(o).loop_labels
        &&& f.functions == res.unwrap().1
    }
}

/// The context after emitting an expression's code.
pub open spec fn after_expr(e: Expression, c: CtxV) -> CtxV {
    let x = expr_emit(e, top(c).scopes, c.labels, c.string_counter);
    CtxV {
        output: c.output + x.text,
        labels: x.labels,
        strings: c.strings + x.pool,
        string_counter: c.string_counter + x.pool.len(),
        ..c
    }
}

/// The context after pushing `rdi`.
pub open spec fn after_push(c: CtxV) -> CtxV {
    with_top(emit(c, "    push "@ + "rdi"@ + seq!['\n']), with_stack(top(c), top(c).stack_size + 8))
}

/// The context after popping into `reg`.
pub open spec fn after_pop(c: CtxV, reg: Seq<char>) -> CtxV {
    with_top(emit(c, "    pop "@ + reg + seq!['\n']), with_stack(top(c), top(c).stack_size - 8))
}

/// The context after pushing `rdi` `k` times.
pub open spec fn after_pushes(c: CtxV, k: nat) -> CtxV
    decreases k,
{
    if k == 0 { c } else { after_push(after_pushes(c, (k - 1) as nat)) }
}

/// The context after closing the top frame's innermost scope.
pub open spec fn after_close(c: CtxV) -> CtxV {
    with_top(
        emit(c, repeat("    pop rsi\n"@, crate::context::close_scope_pops(top(c)))),
        crate::context::close_scope(top(c)),
    )
}

/// The context after one emitted line.
pub open spec fn after_line(c: CtxV, l: Seq<char>) -> CtxV {
    emit(c, l + seq!['\n'])
}

/// The context after lowering `s` from `c`, when `s` lowers.
pub open spec fn gen_stmt(s: StatementNode, c: CtxV) -> CtxV
    decreases s, 0int,
{
    let sc = top(c).scopes;
    match s {
        StatementNode::Declaration { literal, expr, size } => {
            let c2 = after_pushes(after_expr(expr, c), size as nat);
            with_top(c2, crate::context::bind(top(c2), literal@, top(c2).stack_size as i64))
        },
        StatementNode::Return { expr } => {
            let c1 = after_expr(expr, c);
            if c.frames.len() > 1 {
                let c2 = with_top(emit(c1, repeat("    pop rsi\n"@, (top(c1).stack_size / 8) as nat)), with_stack(top(c1), 0));
                let c3 = after_line(after_line(c2, "    pop rbp"@), "    ret"@);
                with_top(c3, with_stack(top(c3), top(c1).stack_size))
            } else {
                after_line(after_line(c1, "    mov rax, 60"@), "    syscall"@)
            }
        },
        StatementNode::Scope { statements } => {
            let c1 = with_top(c, crate::context::open_scope(top(c)));
            after_close(gen_stmts(statements, statements@.len() as int, c1))
        },
        StatementNode::If { expr, scope } => {
            let l = label_text("LABEL"@, c.labels + 1);
            let c1 = after_expr(expr, CtxV { labels: c.labels + 1, ..c });
            let c2 = after_line(after_line(c1, "    cmp rdi, 0"@), "    je "@ + l);
            after_line(gen_stmt(*scope, c2), l + ":"@)
        },
        StatementNode::While { expr, scope } => {
            let t = label_text("LABEL"@, c.labels + 1);
            let x = label_text("LABEL"@, c.labels + 2);
            let c0 = CtxV { labels: c.labels + 2, ..c };
            let c1 = after_line(with_top(c0, FrameV { loop_labels: top(c0).loop_labels.push(x), ..top(c0) }), t + ":"@);
            let c2 = after_line(after_line(after_expr(expr, c1), "    cmp rdi, 0"@), "    je "@ + x);
            let c3 = after_line(after_line(gen_stmt(*scope, c2), "    jmp "@ + t), x + ":"@);
            with_top(c3, FrameV {
                loop_labels: if top(c3).loop_labels.len() == 0 { top(c3).loop_labels } else { top(c3).loop_labels.drop_last() },
                ..top(c3)
            })
        },
        StatementNode::Assignment { literal, expr, index_expr } => {
            let base = slot_text(frame_lookup(sc, literal@).unwrap());
            match index_expr {
                Some(ix) => {
                    let c1 = after_pop(after_expr(expr, after_push(after_expr(ix, c))), "rax"@);
                    after_line(c1, "    mov ["@ + base + " + rax * 8], rdi"@ + ""@)
                },
                None => after_line(after_expr(expr, c), "    mov ["@ + base + "], rdi"@ + ""@),
            }
        },
        StatementNode::Break => after_line(c, "    jmp "@ + top(c).loop_labels.last()),
        StatementNode::Print { expr, len } => {
            let c1 = after_pop(after_expr(len, after_push(after_expr(expr, c))), "rsi"@);
            after_line(after_line(after_line(after_line(c1, "    mov rdx, rdi"@), "    mov rax, 1"@), "    mov rdi, 1"@), "    syscall"@)
        },
        StatementNode::Read { ptr, len } => {
            let c1 = after_pop(after_expr(len, after_push(after_expr(ptr, c))), "rsi"@);
            after_line(after_line(after_line(after_line(c1, "    mov rdx, rdi"@), "    mov rax, 0"@), "    mov rdi, 0"@), "    syscall"@)
        },
        StatementNode::Function { name, scope, args } => {
            gen_function(name, *scope, args, CtxV { functions: c.functions.push(name@), ..c })
        },
    }
}

/// The context after emitting a function whose name is already declared.
pub open spec fn gen_function(name: String, scope: StatementNode, args: Vec<String>, c: CtxV) -> CtxV
    decreases scope, 1int,
{
    let c1 = CtxV { frames: c.frames.push(crate::context::empty_frame()), ..c };
    let c2 = after_line(after_line(after_line(c1, name@ + ":"@), "    push rbp"@), "    mov rbp, rsp"@);
    let c3 = with_top(c2, crate::context::FrameV {
        stack_size: 0,
        scopes: seq![crate::context::ScopeV { vars: crate::ast::param_vars(args@), created: 0 }],
        loop_labels: seq![],
    });
    let c4 = after_line(after_line(after_close(gen_stmt(scope, c3)), "    pop rbp"@), "    ret"@);
    CtxV { frames: c4.frames.drop_last(), ..c4 }
}

/// The context after lowering the first `n` statements in order.
pub open spec fn gen_stmts(stmts: Vec<StatementNode>, n: int, c: CtxV) -> CtxV
    decreases stmts, n,
{
    if n <= 0 || n > stmts@.len() { c } else { gen_stmt(stmts@[n - 1], gen_stmts(stmts, n - 1, c)) }
}

/// The error of a statement's own check, made before it emits anything:
/// a redeclaration, an assignment to an undeclared variable, a `break`
/// outside a loop, or a function defined twice.
pub open spec fn stmt_error(s: StatementNode, o: CtxV) -> Option<Seq<char>> {
    let f = top(o);
    match s {
        StatementNode::Declaration { literal, .. } => {
            if f.scopes.len() > 0 && scope_lookup(f.scopes.last().vars, literal@) is Some {
                Some("Variable "@ + literal@ + " already exists"@)
            } else {
                None
            }
        },
        StatementNode::Assignment { literal, .. } => {
            if frame_lookup(f.scopes, literal@) is None {
                Some("Variable "@ + literal@ + " doesnt exist"@)
            } else {
                None
            }
        },
        StatementNode::Break => if f.loop_labels.len() == 0 { Some("break without label"@) } else { None },
        StatementNode::Function { name, .. } => {
            if o.functions.contains(name@) { Some("function "@ + name@ + " already exists"@) } else { None }
        },
        _ => None,
    }
}

/// The error of a term's own check, made before it emits anything: an
/// undeclared variable or an undeclared function.
pub open spec fn term_error(t: Term, o: CtxV) -> Option<Seq<char>> {
    match t {
        Term::Identifier { name, .. } => {
            if frame_lookup(top(o).scopes, name@) is None { Some("Undeclared variable "@ + name@) } else { None }
        },
        Term::FunctionCall(name, _) => if o.functions.contains(name@) { None } else { Some("undefined function"@) },
        _ => None,
    }
}

proof fn lemma_after_expr(o: CtxV, f: CtxV, e: Expression)
    requires
        emitted(o, f, expr_emit(e, top(o).scopes, o.labels, o.string_counter)),
        f.frames == o.frames,
        f.functions == o.functions,
    ensures
        f == after_expr(e, o),
{
}

proof fn lemma_step(a: CtxV, t: Seq<char>)
    ensures
        grows(a, emit(a, t), 0),
{
    lemma_prefix_append(a.output, t);
}

/// Holds `rdi` on the stack while `e` is evaluated, then pops it into `reg`.
fn eval_held(parsing_context: &mut ParsingContext, e: &Expression, reg: &str) -> (r: Result<(), CompilationError>)
    requires
        old(parsing_context).wf(),
        budget(old(parsing_context)@, 1 + expr_weight(*e)),
    ensures
        (r is Ok) == expr_ok(*e, top(old(parsing_context)@).scopes, old(parsing_context)@.functions),
        r is Ok ==> {
            &&& final(parsing_context).wf()
            &&& final(parsing_context)@.frames == old(parsing_context)@.frames
            &&& final(parsing_context)@.functions == old(parsing_context)@.functions
            &&& grows(old(parsing_context)@, final(parsing_context)@, 1 + expr_weight(*e))
            &&& final(parsing_context)@ == after_pop(after_expr(*e, after_push(old(parsing_context)@)), reg@)
        },
{
    let ghost o = parsing_context@;
    proof {
        parsing_context.lemma_wf();
    }
    parsing_context.push_on_stack("rdi");
    let ghost o2 = parsing_context@;
    proof {
        lemma_with_top(emit(o, "    push rdi"@ + seq!['\n']), with_stack(top(o), top(o).stack_size + 8));
        lemma_step(o, "    push rdi"@ + seq!['\n']);
    }
    match e.to_asm(parsing_context) {
        Ok(()) => {},
        Err(err) => {
            return Err(err);
        },
    }
    let ghost o3 = parsing_context@;
    parsing_context.pop_from_stack(reg);
    proof {
        let o4 = parsing_context@;
        lemma_with_top(emit(o3, "    pop "@ + reg@ + seq!['\n']), with_stack(top(o3), top(o3).stack_size - 8));
        lemma_step(o3, "    pop "@ + reg@ + seq!['\n']);
        assert(top(o4) =~= top(o));
        lemma_frames_eq(o4.frames, o.frames);
        lemma_grows_trans(o, o2, o3, 0, expr_weight(*e), expr_weight(*e));
        lemma_grows_trans(o, o3, o4, expr_weight(*e), 0, 1 + expr_weight(*e));
        let x = expr_emit(*e, top(o).scopes, o.labels, o.string_counter);
        assert(top(o2).scopes == top(o).scopes);
        lemma_after_expr(o2, o3, *e);
    }
    Ok(())
}

/// `break`: a jump to the exit label of the innermost loop.
fn lower_break(s: &StatementNode, parsing_context: &mut ParsingContext) -> (r: Result<(), CompilationError>)
    requires
        old(parsing_context).wf(),
        budget(old(parsing_context)@, stmt_weight(*s)),
        *s is Break,
    ensures
        stmt_lowered(*s, old(parsing_context)@, final(parsing_context)@, r is Ok, final(parsing_context).wf()),
        stmt_error(*s, old(parsing_context)@) matches Some(m) ==> (r matches Err(e) && e.message@ == m
            && final(parsing_context)@ == old(parsing_context)@),
        r is Ok ==> final(parsing_context)@ == gen_stmt(*s, old(parsing_context)@),
        r is Ok ==> final(parsing_context)@.output == old(parsing_context)@.output
            + line("    jmp "@ + top(old(parsing_context)@).loop_labels.last()),
{
    let ghost o = parsing_context@;
    match parsing_context.current_loop_exit_label() {
        Some(label) => {
            emit2(parsing_context, "    jmp ", label.as_str());
            proof {
                lemma_step(o, line("    jmp "@ + label@));
            }
            Ok(())
        },
        None => Err(CompilationError::new("break without label")),
    }
}

/// `return e;`: in a function, unwind the frame and return with the value in
/// `rdi`; at the top level, exit the process with it as status.
#[verifier::rlimit(60)]
fn lower_return(s: &StatementNode, parsing_context: &mut ParsingContext) -> (r: Result<(), CompilationError>)
    requires
        old(parsing_context).wf(),
        budget(old(parsing_context)@, stmt_weight(*s)),
        *s is Return,
    ensures
        stmt_lowered(*s, old(parsing_context)@, final(parsing_context)@, r is Ok, final(parsing_context).wf()),
        r is Ok ==> final(parsing_context)@ == gen_stmt(*s, old(parsing_context)@),
{
    let ghost o = parsing_context@;
    let expr = match s {
        StatementNode::Return { expr } => expr,
        _ => { proof { assert(false); } return Err(CompilationError::new("expected a return")); },
    };
    match expr.to_asm(parsing_context) {
        Ok(()) => {},
        Err(e) => {
            return Err(e);
        },
    }
    let ghost o1 = parsing_context@;
    if parsing_context.frame_depth() > 1 {
        let saved = parsing_context.stack_size();
        proof {
            parsing_context.lemma_wf();
        }
        parsing_context.clear_current_stack();
        parsing_context.push_line("    pop rbp");
        parsing_context.push_line("    ret");
        let ghost o2 = parsing_context@;
        parsing_context.reset_stack_size(saved);
        proof {
            let f = parsing_context@;
            let c1 = emit(o1, repeat_pops(top(o1)));
            lemma_with_top(c1, with_stack(top(o1), 0));
            lemma_with_top(o2, with_stack(top(o2), saved as int));
            assert(top(f) =~= top(o1));
            lemma_frames_eq(f.frames, o1.frames);
            assert(f.output.subrange(0, o1.output.len() as int) =~= o1.output);
            lemma_grows_trans(o, o1, f, expr_weight(*expr), 0, stmt_weight(*s));
            assert(top(o1) == top(o));
        }
    } else {
        parsing_context.push_line("    mov rax, 60");
        parsing_context.push_line("    syscall");
        proof {
            let f = parsing_context@;
            assert(f.output.subrange(0, o1.output.len() as int) =~= o1.output);
            lemma_grows_trans(o, o1, f, expr_weight(*expr), 0, stmt_weight(*s));
        }
    }
    Ok(())
}

pub open spec fn repeat_pops(f: crate::context::FrameV) -> Seq<char> {
    crate::context::repeat("    pop rsi\n"@, (f.stack_size / 8) as nat)
}

/// `print v, n;` and `read p, n;`: one system call on a pointer and a length.
#[verifier::rlimit(60)]
fn lower_io(s: &StatementNode, parsing_context: &mut ParsingContext) -> (r: Result<(), CompilationError>)
    requires
        old(parsing_context).wf(),
        budget(old(parsing_context)@, stmt_weight(*s)),
        *s is Print || *s is Read,
    ensures
        stmt_lowered(*s, old(parsing_context)@, final(parsing_context)@, r is Ok, final(parsing_context).wf()),
        r is Ok ==> final(parsing_context)@ == gen_stmt(*s, old(parsing_context)@),
{
    let ghost o = parsing_context@;
    let (ptr, len, call, fd) = match s {
        StatementNode::Print { expr, len } => (expr, len, "    mov rax, 1", "    mov rdi, 1"),
        StatementNode::Read { ptr, len } => (ptr, len, "    mov rax, 0", "    mov rdi, 0"),
        _ => { proof { assert(false); } return Err(CompilationError::new("expected a system call")); },
    };
    match ptr.to_asm(parsing_context) {
        Ok(()) => {},
        Err(e) => {
            return Err(e);
        },
    }
    let ghost o1 = parsing_context@;
    proof {
        lemma_after_expr(o, o1, *ptr);
    }
    match eval_held(parsing_context, len, "rsi") {
        Ok(()) => {},
        Err(e) => {
            return Err(e);
        },
    }
    let ghost o2 = parsing_context@;
    parsing_context.push_line("    mov rdx, rdi");
    parsing_context.push_line(call);
    parsing_context.push_line(fd);
    parsing_context.push_line("    syscall");
    proof {
        let f = parsing_context@;
        assert(f.output.subrange(0, o2.output.len() as int) =~= o2.output);
        lemma_grows_trans(o, o1, o2, expr_weight(*ptr), 1 + expr_weight(*len), stmt_weight(*s));
        lemma_grows_trans(o, o2, f, stmt_weight(*s), 0, stmt_weight(*s));
        reveal_strlit("    mov rax, 1");
        reveal_strlit("    mov rax, 0");
        reveal_strlit("    mov rdi, 1");
        reveal_strlit("    mov rdi, 0");
        assert(f =~= gen_stmt(*s, o));
    }
    Ok(())
}

/// `x = e;` and `x[i] = e;`: a store into the variable's slot.
#[verifier::rlimit(60)]
fn lower_assignment(s: &StatementNode, parsing_context: &mut ParsingContext) -> (r: Result<(), CompilationError>)
    requires
        old(parsing_context).wf(),
        budget(old(parsing_context)@, stmt_weight(*s)),
        *s is Assignment,
    ensures
        stmt_lowered(*s, old(parsing_context)@, final(parsing_context)@, r is Ok, final(parsing_context).wf()),
        stmt_error(*s, old(parsing_context)@) matches Some(m) ==> (r matches Err(e) && e.message@ == m
            && final(parsing_context)@ == old(parsing_context)@),
        r is Ok ==> final(parsing_context)@ == gen_stmt(*s, old(parsing_context)@),
{
    let ghost o = parsing_context@;
    let (literal, expr, index_expr) = match s {
        StatementNode::Assignment { literal, expr, index_expr } => (literal, expr, index_expr),
        _ => { proof { assert(false); } return Err(CompilationError::new("expected an assignment")); },
    };
    let var = match parsing_context.get_var(literal) {
        Some(v) => v,
        None => {
            let m = concat("Variable ", literal.as_str());
            let m2 = concat(m.as_str(), " doesnt exist");
            return Err(CompilationError::new(m2.as_str()));
        },
    };
    let base = slot_address(var.stack_position);
    match index_expr {
        Some(ix) => {
            match ix.to_asm(parsing_context) {
                Ok(()) => {},
                Err(e) => {
                    return Err(e);
                },
            }
            let ghost o1 = parsing_context@;
            match eval_held(parsing_context, expr, "rax") {
                Ok(()) => {},
                Err(e) => {
                    return Err(e);
                },
            }
            let ghost o2 = parsing_context@;
            emit4(parsing_context, "    mov [", base.as_str(), " + rax * 8], rdi", "");
            proof {
                let f = parsing_context@;
                lemma_step(o2, line("    mov ["@ + base@ + " + rax * 8], rdi"@ + ""@));
                lemma_grows_trans(o, o1, o2, expr_weight(*ix), 1 + expr_weight(*expr), stmt_weight(*s));
                lemma_grows_trans(o, o2, f, stmt_weight(*s), 0, stmt_weight(*s));
            }
        },
        None => {
            match expr.to_asm(parsing_context) {
                Ok(()) => {},
                Err(e) => {
                    return Err(e);
                },
            }
            let ghost o2 = parsing_context@;
            emit4(parsing_context, "    mov [", base.as_str(), "], rdi", "");
            proof {
                let f = parsing_context@;
                lemma_step(o2, line("    mov ["@ + base@ + "], rdi"@ + ""@));
                lemma_grows_trans(o, o2, f, expr_weight(*expr), 0, stmt_weight(*s));
            }
        },
    }
    Ok(())
}

/// `let x[n] = e;`: evaluates `e`, pushes it `n` times, and binds `x` to the
/// slot of the last push.
#[verifier::rlimit(60)]
fn lower_declaration(s: &StatementNode, parsing_context: &mut ParsingContext) -> (r: Result<(), CompilationError>)
    requires
        old(parsing_context).wf(),
        budget(old(parsing_context)@, stmt_weight(*s)),
        *s is Declaration,
    ensures
        stmt_lowered(*s, old(parsing_context)@, final(parsing_context)@, r is Ok, final(parsing_context).wf()),
        stmt_error(*s, old(parsing_context)@) matches Some(m) ==> (r matches Err(e) && e.message@ == m
            && final(parsing_context)@ == old(parsing_context)@),
        r is Ok ==> final(parsing_context)@ == gen_stmt(*s, old(parsing_context)@),
{
    let ghost o = parsing_context@;
    let (literal, expr, size) = match s {
        StatementNode::Declaration { literal, expr, size } => (literal, expr, *size),
        _ => { proof { assert(false); } return Err(CompilationError::new("expected a declaration")); },
    };
    proof {
        parsing_context.lemma_wf();
    }
    if parsing_context.declared_in_scope(literal) {
        let m = concat("Variable ", literal.as_str());
        let m2 = concat(m.as_str(), " already exists");
        return Err(CompilationError::new(m2.as_str()));
    }
    match expr.to_asm(parsing_context) {
        Ok(()) => {},
        Err(e) => {
            return Err(e);
        },
    }
    let ghost o1 = parsing_context@;
    assert(o1.output =~= o1.output + repeat(line("    push "@ + "rdi"@), 0));
    proof {
        lemma_after_expr(o, o1, *expr);
    }
    let mut k: usize = 0;
    while k < size
        invariant
            k <= size,
            parsing_context.wf(),
            top(parsing_context@).stack_size == top(o).stack_size + 8 * k,
            top(parsing_context@).scopes == top(o).scopes,
            top(parsing_context@).loop_labels == top(o).loop_labels,
            parsing_context@.frames.len() == o.frames.len(),
            parsing_context@.frames.drop_last() == o.frames.drop_last(),
            parsing_context@.functions == o.functions,
            grows(o, parsing_context@, expr_weight(*expr)),
            budget(o, stmt_weight(*s)),
            stmt_weight(*s) == 1 + expr_weight(*expr) + size,
            o.frames.len() >= 1,
            top(o).stack_size >= 0,
            parsing_context@.output == o1.output + repeat(line("    push "@ + "rdi"@), k as nat),
            parsing_context@ == after_pushes(o1, k as nat),
        decreases size - k,
    {
        let ghost a = parsing_context@;
        parsing_context.push_on_stack("rdi");
        proof {
            let b = parsing_context@;
            lemma_with_top(emit(a, "    push rdi"@ + seq!['\n']), with_stack(top(a), top(a).stack_size + 8));
            lemma_step(a, "    push rdi"@ + seq!['\n']);
            lemma_grows_trans(o, a, b, expr_weight(*expr), 0, expr_weight(*expr));
            assert(b.frames.drop_last() =~= o.frames.drop_last());
            assert(b.output =~= o1.output + repeat(line("    push "@ + "rdi"@), (k + 1) as nat));
        }
        k = k + 1;
    }
    let ghost o2 = parsing_context@;
    match parsing_context.add_var(literal.clone()) {
        Some(_) => {},
        None => {
            let m = concat("Variable ", literal.as_str());
            let m2 = concat(m.as_str(), " already exists");
            return Err(CompilationError::new(m2.as_str()));
        },
    }
    proof {
        let f = parsing_context@;
        let sh = shape(top(o));
        lemma_with_top(o2, crate::context::bind(top(o2), literal@, top(o2).stack_size as i64));
        assert(f.frames.drop_last() =~= o.frames.drop_last());
        assert(shape(top(f)).scopes =~= crate::ast::bind_scopes(sh.scopes, literal@, (sh.stack_size + 8 * size) as i64));
        lemma_grows_trans(o, o2, f, expr_weight(*expr), 0, stmt_weight(*s));
    }
    Ok(())
}

/// A block: opens a scope, lowers its statements in order, closes the scope.
#[verifier::rlimit(60)]
fn lower_scope(s: &StatementNode, parsing_context: &mut ParsingContext) -> (r: Result<(), CompilationError>)
    requires
        old(parsing_context).wf(),
        budget(old(parsing_context)@, stmt_weight(*s)),
        *s is Scope,
    ensures
        stmt_lowered(*s, old(parsing_context)@, final(parsing_context)@, r is Ok, final(parsing_context).wf()),
        r is Ok ==> final(parsing_context)@ == gen_stmt(*s, old(parsing_context)@),
    decreases s, 0int,
{
    let ghost o = parsing_context@;
    let statements = match s {
        StatementNode::Scope { statements } => statements,
        _ => { proof { assert(false); } return Err(CompilationError::new("expected a block")); },
    };
    proof {
        parsing_context.lemma_wf();
    }
    parsing_context.push_scope();
    let ghost o1 = parsing_context@;
    let ghost sh0 = open_shape(shape(top(o)));
    proof {
        lemma_with_top(o, crate::context::open_scope(top(o)));
        assert(shape(top(o1)) =~= sh0);
        assert(stmts_weight(*statements, 0) == 0);
    }
    let mut i: usize = 0;
    while i < statements.len()
        invariant
            i <= statements@.len(),
            *s == (StatementNode::Scope { statements: *statements }),
            o == old(parsing_context)@,
            sh0 == open_shape(shape(top(o))),
            parsing_context.wf(),
            parsing_context@.frames.len() == o.frames.len(),
            parsing_context@.frames.drop_last() == o.frames.drop_last(),
            top(parsing_context@).loop_labels == top(o).loop_labels,
            lower_stmts(*statements, i as int, sh0, o.functions) == Some((shape(top(parsing_context@)), parsing_context@.functions)),
            parsing_context@ == gen_stmts(*statements, i as int, o1),
            o1 == with_top(o, crate::context::open_scope(top(o))),
            grows(o, parsing_context@, stmts_weight(*statements, i as int)),
            top(parsing_context@).stack_size <= top(o).stack_size + 8 * stmts_weight(*statements, i as int),
            budget(o, stmt_weight(*s)),
            o.frames.len() >= 1,
            top(o).stack_size >= 0,
        decreases statements@.len() - i,
    {
        let ghost a = parsing_context@;
        proof {
            assert(stmts_weight(*statements, i as int + 1) == stmts_weight(*statements, i as int) + stmt_weight(statements@[i as int]));
            lemma_stmts_weight_mono(*statements, i as int + 1, statements@.len() as int);
            assert(decreases_to!(*s => *statements));
            assert(decreases_to!(*statements => statements@));
            assert(decreases_to!(statements@ => statements@[i as int]));
        }
        let res = statements[i].to_asm(parsing_context);
        match res {
            Ok(()) => {},
            Err(e) => {
                proof {
                    assert(lower_stmt(statements@[i as int], shape(top(a)), a.functions) is None);
                    assert(lower_stmts(*statements, i as int + 1, sh0, o.functions) is None);
                    lemma_lower_stmts_fails(*statements, i as int + 1, statements@.len() as int, sh0, o.functions);
                    assert(lower_stmts(*statements, statements@.len() as int, sh0, o.functions) is None);
                    assert(lower_stmt(*s, shape(top(o)), o.functions) is None);
                }
                return Err(e);
            },
        }
        proof {
            let b = parsing_context@;
            lemma_grows_trans(o, a, b, stmts_weight(*statements, i as int), stmt_weight(statements@[i as int]), stmts_weight(*statements, i as int + 1));
            lemma_lower_keeps_frame(statements@[i as int], shape(top(a)), a.functions);
        }
        i = i + 1;
    }
    let ghost o2 = parsing_context@;
    proof {
        assert(statements@.len() == i);
        parsing_context.lemma_wf();
        lemma_lower_stmts_keeps_frame(*statements, i as int, sh0, o.functions);
        assert(top(o2).scopes.len() > 0);
    }
    parsing_context.pop_scope();
    proof {
        let f = parsing_context@;
        let tf = crate::context::close_scope(top(o2));
        lemma_with_top(emit(o2, crate::context::repeat("    pop rsi\n"@, crate::context::close_scope_pops(top(o2)))), tf);
        lemma_step(o2, crate::context::repeat("    pop rsi\n"@, crate::context::close_scope_pops(top(o2))));
        assert(shape(top(f)) =~= close_shape(shape(top(o2))));
        assert(f.frames.drop_last() =~= o.frames.drop_last());
        lemma_grows_trans(o, o2, f, stmts_weight(*statements, i as int), 0, stmt_weight(*s));
        let body = o2.output.subrange(o.output.len() as int, o2.output.len() as int);
        assert(o2.output =~= o.output + body) by {
            assert(o.output.is_prefix_of(o2.output));
        }
        assert(top(o2).scopes.last().created == top(o).stack_size);
        assert(f == after_close(o2));
    }
    Ok(())
}

/// `if e { ... }`: skips the body when `e` is zero.
#[verifier::rlimit(60)]
fn lower_if(s: &StatementNode, parsing_context: &mut ParsingContext) -> (r: Result<(), CompilationError>)
    requires
        old(parsing_context).wf(),
        budget(old(parsing_context)@, stmt_weight(*s)),
        *s is If,
    ensures
        stmt_lowered(*s, old(parsing_context)@, final(parsing_context)@, r is Ok, final(parsing_context).wf()),
        r is Ok ==> final(parsing_context)@ == gen_stmt(*s, old(parsing_context)@),
    decreases s, 0int,
{
    let ghost o = parsing_context@;
    let (expr, scope) = match s {
        StatementNode::If { expr, scope } => (expr, scope),
        _ => { proof { assert(false); } return Err(CompilationError::new("expected an if")); },
    };
    let label = parsing_context.new_label();
    let ghost o1 = parsing_context@;
    match expr.to_asm(parsing_context) {
        Ok(()) => {},
        Err(e) => {
            return Err(e);
        },
    }
    proof {
        lemma_after_expr(o1, parsing_context@, *expr);
    }
    parsing_context.push_line("    cmp rdi, 0");
    emit2(parsing_context, "    je ", label.as_str());
    let ghost o2 = parsing_context@;
    proof {
        assert(o2.output.subrange(0, o1.output.len() as int) =~= o1.output.subrange(0, o1.output.len() as int));
        assert(grows(o1, o2, expr_weight(*expr)));
    }
    match (**scope).to_asm(parsing_context) {
        Ok(()) => {},
        Err(e) => {
            return Err(e);
        },
    }
    let ghost o3 = parsing_context@;
    emit2(parsing_context, label.as_str(), ":");
    proof {
        let f = parsing_context@;
        let body = o3.output.subrange(o2.output.len() as int, o3.output.len() as int);
        assert(o3.output =~= o2.output + body) by {
            assert(o2.output.is_prefix_of(o3.output));
        }
        let e = expr_emit(*expr, top(o).scopes, o.labels + 1, o.string_counter);
        lemma_step(o3, line(label@ + ":"@));
        assert(grows(o, o1, 1));
        lemma_grows_trans(o, o1, o2, 1, expr_weight(*expr), 1 + expr_weight(*expr));
        lemma_grows_trans(o, o2, o3, 1 + expr_weight(*expr), stmt_weight(**scope), stmt_weight(*s));
        lemma_grows_trans(o, o3, f, stmt_weight(*s), 0, stmt_weight(*s));
        assert(f =~= gen_stmt(*s, o));
    }
    Ok(())
}

/// `while e { ... }`: tests at the top; the exit label is the target of any
/// `break` in the body.
#[verifier::rlimit(60)]
fn lower_while(s: &StatementNode, parsing_context: &mut ParsingContext) -> (r: Result<(), CompilationError>)
    requires
        old(parsing_context).wf(),
        budget(old(parsing_context)@, stmt_weight(*s)),
        *s is While,
    ensures
        stmt_lowered(*s, old(parsing_context)@, final(parsing_context)@, r is Ok, final(parsing_context).wf()),
        r is Ok ==> final(parsing_context)@ == gen_stmt(*s, old(parsing_context)@),
    decreases s, 0int,
{
    let ghost o = parsing_context@;
    let (expr, scope) = match s {
        StatementNode::While { expr, scope } => (expr, scope),
        _ => { proof { assert(false); } return Err(CompilationError::new("expected a while")); },
    };
    let top_label = parsing_context.new_label();
    let exit_label = parsing_context.new_label();
    parsing_context.add_loop_exit_label(exit_label.clone());
    emit2(parsing_context, top_label.as_str(), ":");
    let ghost o1 = parsing_context@;
    proof {
        let m = CtxV { labels: o.labels + 2, ..o };
        lemma_with_top(m, crate::context::FrameV { loop_labels: top(m).loop_labels.push(exit_label@), ..top(m) });
        assert(o1.output.subrange(0, o.output.len() as int) =~= o.output);
        assert(grows(o, o1, 2));
        assert(top(o1).scopes == top(o).scopes);
    }
    match expr.to_asm(parsing_context) {
        Ok(()) => {},
        Err(e) => {
            return Err(e);
        },
    }
    parsing_context.push_line("    cmp rdi, 0");
    emit2(parsing_context, "    je ", exit_label.as_str());
    let ghost o2 = parsing_context@;
    proof {
        assert(o2.output.subrange(0, o1.output.len() as int) =~= o1.output.subrange(0, o1.output.len() as int));
        assert(grows(o1, o2, expr_weight(*expr)));
        lemma_grows_trans(o, o1, o2, 2, expr_weight(*expr), 2 + expr_weight(*expr));
        assert(shape(top(o2)) =~= (Shape { loops: shape(top(o)).loops + 1, ..shape(top(o)) }));
    }
    match (**scope).to_asm(parsing_context) {
        Ok(()) => {},
        Err(e) => {
            return Err(e);
        },
    }
    let ghost o3 = parsing_context@;
    emit2(parsing_context, "    jmp ", top_label.as_str());
    emit2(parsing_context, exit_label.as_str(), ":");
    let ghost o4 = parsing_context@;
    proof {
        assert(o4.output.subrange(0, o3.output.len() as int) =~= o3.output);
        lemma_grows_trans(o, o2, o3, 2 + expr_weight(*expr), stmt_weight(**scope), stmt_weight(*s));
        lemma_grows_trans(o, o3, o4, stmt_weight(*s), 0, stmt_weight(*s));
        parsing_context.lemma_wf();
    }
    parsing_context.pop_loop_exit_label();
    proof {
        let f = parsing_context@;
        let body = o3.output.subrange(o2.output.len() as int, o3.output.len() as int);
        assert(o3.output =~= o2.output + body) by {
            assert(o2.output.is_prefix_of(o3.output));
        }
        lemma_lower_keeps_frame(**scope, shape(top(o2)), o2.functions);
        let t4 = top(o4);
        lemma_with_top(o4, crate::context::FrameV { loop_labels: t4.loop_labels.drop_last(), ..t4 });
        assert(top(o4).loop_labels == top(o).loop_labels.push(exit_label@));
        assert(top(f).loop_labels =~= top(o).loop_labels);
        assert(f.frames.drop_last() =~= o.frames.drop_last());
        assert(grows(o4, f, 0));
        lemma_grows_trans(o, o4, f, stmt_weight(*s), 0, stmt_weight(*s));
    }
    Ok(())
}

/// Emits a function: its label, a frame of its own with the parameters bound
/// below the saved base pointer, its body, and a return.
#[verifier::rlimit(60)]
pub fn lower_function_body(
    name: &String,
    scope: &StatementNode,
    args: &Vec<String>,
    parsing_context: &mut ParsingContext,
) -> (r: Result<(), CompilationError>)
    requires
        old(parsing_context).wf(),
        budget(old(parsing_context)@, 1 + args@.len() + stmt_weight(*scope)),
    ensures
        (r is Ok) == lower_stmt(*scope, param_shape(args@), old(parsing_context)@.functions) is Some,
        r is Ok ==> {
            &&& final(parsing_context).wf()
            &&& final(parsing_context)@.frames == old(parsing_context)@.frames
            &&& final(parsing_context)@.functions == lower_stmt(
                *scope,
                param_shape(args@),
                old(parsing_context)@.functions,
            ).unwrap().1
            &&& grows(old(parsing_context)@, final(parsing_context)@, 1 + args@.len() + stmt_weight(*scope))
            &&& final(parsing_context)@ == gen_function(*name, *scope, *args, old(parsing_context)@)
        },
    decreases scope, 2int,
{
    let ghost o = parsing_context@;
    proof {
        parsing_context.lemma_wf();
    }
    parsing_context.add_stack_pointer();
    emit2(parsing_context, name.as_str(), ":");
    parsing_context.push_line("    push rbp");
    parsing_context.push_line("    mov rbp, rsp");
    let ghost oc2 = parsing_context@;
    parsing_context.push_scope();
    let ghost o1 = parsing_context@;
    let n = args.len();
    proof {
        let c0 = CtxV { frames: o.frames.push(crate::context::empty_frame()), ..o };
        assert(top(c0) == crate::context::empty_frame());
        assert(o1.frames.drop_last() =~= o.frames);
        assert(top(o1).scopes =~= seq![crate::context::ScopeV { vars: seq![], created: 0 }]);
        assert(param_vars(args@).subrange(0, 0) =~= seq![]);
    }
    let mut i: usize = 0;
    while i < n
        invariant
            i <= n,
            n == args@.len(),
            parsing_context.wf(),
            parsing_context@.frames.drop_last() == o.frames,
            parsing_context@.frames.len() == o.frames.len() + 1,
            top(parsing_context@).stack_size == 0,
            top(parsing_context@).loop_labels == Seq::<Seq<char>>::empty(),
            top(parsing_context@).scopes == seq![crate::context::ScopeV { vars: param_vars(args@).subrange(0, i as int), created: 0 }],
            parsing_context@.functions == o.functions,
            parsing_context@.labels == o1.labels,
            parsing_context@.string_counter == o1.string_counter,
            parsing_context@.strings == o1.strings,
            parsing_context@.output == o1.output,
            budget(o, 1 + args@.len() + stmt_weight(*scope)),
            top(o).stack_size >= 0,
        decreases n - i,
    {
        let a = args[i].clone();
        proof {
            assert(top(o).stack_size + 8 * (1 + args@.len() + stmt_weight(*scope)) <= MAX_STACK);
            assert(8 * (n + 1) <= MAX_STACK);
        }
        let k: u64 = (n - i) as u64 + 1;
        assert(k <= n + 1);
        let bytes: u64 = k * 8;
        let off: i64 = -(bytes as i64);
        let ghost c = parsing_context@;
        parsing_context.add_offset_var(a, off);
        proof {
            let f = parsing_context@;
            lemma_with_top(c, crate::context::bind(top(c), args@[i as int]@, off));
            assert(off == param_offset(n as int, i as int) as i64);
            assert(param_vars(args@).subrange(0, i as int + 1) =~= param_vars(args@).subrange(0, i as int).push((args@[i as int]@, off)));
            assert(top(f).scopes =~= seq![crate::context::ScopeV { vars: param_vars(args@).subrange(0, i as int + 1), created: 0 }]);
            assert(f.frames.drop_last() =~= o.frames);
        }
        i = i + 1;
    }
    let ghost o2 = parsing_context@;
    proof {
        assert(param_vars(args@).subrange(0, n as int) =~= param_vars(args@));
        assert(shape(top(o2)) =~= param_shape(args@));
        assert(budget(o2, stmt_weight(*scope)));
        let c3 = with_top(oc2, crate::context::FrameV {
            stack_size: 0,
            scopes: seq![crate::context::ScopeV { vars: param_vars(args@), created: 0 }],
            loop_labels: seq![],
        });
        lemma_with_top(oc2, top(c3));
        assert(oc2.frames.drop_last() =~= o.frames);
        assert(top(o2) =~= top(c3));
        lemma_frames_eq(o2.frames, c3.frames);
        assert(o2 == c3);
    }
    match scope.to_asm(parsing_context) {
        Ok(()) => {},
        Err(e) => {
            return Err(e);
        },
    }
    let ghost o3 = parsing_context@;
    proof {
        lemma_lower_keeps_frame(*scope, param_shape(args@), o.functions);
        parsing_context.lemma_wf();
    }
    parsing_context.pop_scope();
    let ghost o35 = parsing_context@;
    parsing_context.push_line("    pop rbp");
    parsing_context.push_line("    ret");
    let ghost o4 = parsing_context@;
    proof {
        let tf = crate::context::close_scope(top(o3));
        lemma_with_top(emit(o3, crate::context::repeat("    pop rsi\n"@, crate::context::close_scope_pops(top(o3)))), tf);
        assert(o4.frames.drop_last() =~= o.frames);
        assert(o4.frames.len() > 1);
    }
    parsing_context.pop_stack_pointer();
    proof {
        let f = parsing_context@;
        assert(f.frames =~= o.frames);
        assert(o1.output.subrange(0, o.output.len() as int) =~= o.output);
        assert(grows(o, o2, 0));
        assert(f.output.subrange(0, o3.output.len() as int) =~= o3.output);
        assert(grows(o3, f, 0));
        lemma_grows_trans(o, o2, o3, 0, stmt_weight(*scope), stmt_weight(*scope));
        lemma_grows_trans(o, o3, f, stmt_weight(*scope), 0, 1 + args@.len() + stmt_weight(*scope));
        let body = o35.output.subrange(o1.output.len() as int, o35.output.len() as int);
        assert(o35.output =~= o1.output + body) by {
            assert(o1.output.is_prefix_of(o3.output));
            assert(o35.output.subrange(0, o3.output.len() as int) =~= o3.output);
        }
        assert(o35 == after_close(o3));
        assert(f =~= gen_function(*name, *scope, *args, o));
    }
    Ok(())
}

/// A function definition met among statements: declares its name, then emits it.
fn lower_function(s: &StatementNode, parsing_context: &mut ParsingContext) -> (r: Result<(), CompilationError>)
    requires
        old(parsing_context).wf(),
        budget(old(parsing_context)@, stmt_weight(*s)),
        *s is Function,
    ensures
        stmt_lowered(*s, old(parsing_context)@, final(parsing_context)@, r is Ok, final(parsing_context).wf()),
        stmt_error(*s, old(parsing_context)@) matches Some(m) ==> (r matches Err(e) && e.message@ == m
            && final(parsing_context)@ == old(parsing_context)@),
        r is Ok ==> final(parsing_context)@ == gen_stmt(*s, old(parsing_context)@),
    decreases s, 0int,
{
    let ghost o = parsing_context@;
    let (name, scope, args) = match s {
        StatementNode::Function { name, scope, args } => (name, scope, args),
        _ => { proof { assert(false); } return Err(CompilationError::new("expected a function")); },
    };
    if !parsing_context.add_function_name(name.clone()) {
        let m = concat("function ", name.as_str());
        let m2 = concat(m.as_str(), " already exists");
        return Err(CompilationError::new(m2.as_str()));
    }
    let ghost o1 = parsing_context@;
    proof {
        assert(grows(o, o1, 0));
    }
    match lower_function_body(name, &**scope, args, parsing_context) {
        Ok(()) => {},
        Err(e) => {
            return Err(e);
        },
    }
    proof {
        let f = parsing_context@;
        lemma_grows_trans(o, o1, f, 0, stmt_weight(*s), stmt_weight(*s));
    }
    Ok(())
}

impl StatementNode {
    /// Emits the statement's code, keeping the frame bookkeeping in step.
    pub fn to_asm(&self, parsing_context: &mut ParsingContext) -> (r: Result<(), CompilationError>)
        requires
            old(parsing_context).wf(),
            budget(old(parsing_context)@, stmt_weight(*self)),
        ensures
            stmt_lowered(*self, old(parsing_context)@, final(parsing_context)@, r is Ok, final(parsing_context).wf()),
            r is Ok ==> final(parsing_context)@ == gen_stmt(*self, old(parsing_context)@),
            stmt_error(*self, old(parsing_context)@) matches Some(m) ==> (r matches Err(e) && e.message@ == m
                && final(parsing_context)@ == old(parsing_context)@),
        decreases self, 1int,
    {
        match self {
            StatementNode::Declaration { .. } => lower_declaration(self, parsing_context),
            StatementNode::Return { .. } => lower_return(self, parsing_context),
            StatementNode::Scope { .. } => lower_scope(self, parsing_context),
            StatementNode::If { .. } => lower_if(self, parsing_context),
            StatementNode::While { .. } => lower_while(self, parsing_context),
            StatementNode::Assignment { .. } => lower_assignment(self, parsing_context),
            StatementNode::Break => lower_break(self, parsing_context),
            StatementNode::Print { .. } => lower_io(self, parsing_context),
            StatementNode::Read { .. } => lower_io(self, parsing_context),
            StatementNode::Function { .. } => lower_function(self, parsing_context),
        }
    }
}

/// The context after emitting the first `n` top-level function definitions.
pub open spec fn gen_functions(stmts: Vec<StatementNode>, n: int, c: CtxV) -> CtxV
    decreases n,
{
    if n <= 0 || n > stmts@.len() {
        c
    } else {
        let prev = gen_functions(stmts, n - 1, c);
        match stmts@[n - 1] {
            StatementNode::Function { name, scope, args } => gen_function(name, *scope, args, prev),
            _ => prev,
        }
    }
}

/// The context after lowering the first `n` top-level statements that are no
/// function definitions.
pub open spec fn gen_top(stmts: Vec<StatementNode>, n: int, c: CtxV) -> CtxV
    decreases n,
{
    if n <= 0 || n > stmts@.len() {
        c
    } else {
        let prev = gen_top(stmts, n - 1, c);
        match stmts@[n - 1] {
            StatementNode::Function { .. } => prev,
            _ => gen_stmt(stmts@[n - 1], prev),
        }
    }
}

/// The context after lowering a whole program from `c`, when it lowers.
pub open spec fn gen_program(stmts: Vec<StatementNode>, c: CtxV) -> CtxV {
    let n = stmts@.len() as int;
    let c0 = CtxV { functions: register_functions(stmts, n, c.functions).unwrap(), ..c };
    let c2 = gen_functions(stmts, n, after_line(c0, "section .text"@));
    let c3 = after_line(after_line(after_line(after_line(c2, "global _start:"@), "_start:"@), "    push rbp"@), "    mov rbp, rsp"@);
    let c5 = after_line(gen_top(stmts, n, c3), "section .data"@);
    emit(c5, crate::context::data_text(c5.strings))
}

/// The layout of a program's text: the text section with the functions'
/// code, the entry point with the top-level code, then the data section.
pub open spec fn program_text(functions: Seq<char>, main: Seq<char>, strings: Seq<(Seq<char>, Seq<char>)>) -> Seq<char> {
    line("section .text"@) + functions + line("global _start:"@) + line("_start:"@) + line("    push rbp"@)
        + line("    mov rbp, rsp"@) + main + line("section .data"@) + crate::context::data_text(strings)
}

impl ProgramNode {
    /// Emits the whole program: the text section with every function, the
    /// entry point with the remaining top-level statements, and the data
    /// section with the pooled strings. Function names are all declared before
    /// any body is lowered, so a call may precede the callee's definition.
    #[verifier::rlimit(60)]
    pub fn to_asm(&self, parsing_context: &mut ParsingContext) -> (r: Result<(), CompilationError>)
        requires
            old(parsing_context).wf(),
            budget(old(parsing_context)@, 2 * stmts_weight(self.statements, self.statements@.len() as int)),
        ensures
            (r is Ok) == program_lowers(self.statements, shape(top(old(parsing_context)@)), old(parsing_context)@.functions),
            r is Ok ==> final(parsing_context).wf(),
            r is Ok ==> final(parsing_context)@ == gen_program(self.statements, old(parsing_context)@),
            r is Ok ==> exists|functions: Seq<char>, main: Seq<char>| final(parsing_context)@.output
                == old(parsing_context)@.output + #[trigger] program_text(functions, main, final(parsing_context)@.strings),
    {
        let ghost o = parsing_context@;
        let stmts = &self.statements;
        let n = stmts.len();
        let ghost w = stmts_weight(*stmts, n as int);
        proof {
            parsing_context.lemma_wf();
        }
        let mut i: usize = 0;
        while i < n
            invariant
                i <= n,
                n == stmts@.len(),
                stmts == &self.statements,
                parsing_context.wf(),
                register_functions(*stmts, i as int, o.functions) == Some(parsing_context@.functions),
                parsing_context@ == (CtxV { functions: parsing_context@.functions, ..o }),
                o == old(parsing_context)@,
            decreases n - i,
        {
            match &stmts[i] {
                StatementNode::Function { name, scope, args } => {
                    if !parsing_context.add_function_name(name.clone()) {
                        proof {
                            assert(register_functions(*stmts, i as int + 1, o.functions) is None);
                            lemma_register_fails(*stmts, i as int + 1, n as int, o.functions);
                        }
                        let m = concat("function ", name.as_str());
                        let m2 = concat(m.as_str(), " already exists");
                        return Err(CompilationError::new(m2.as_str()));
                    }
                },
                _ => {},
            }
            i = i + 1;
        }
        let ghost f1 = parsing_context@.functions;
        parsing_context.push_line("section .text");
        let ghost o1 = parsing_context@;
        let mut i: usize = 0;
        while i < n
            invariant
                i <= n,
                n == stmts@.len(),
                stmts == &self.statements,
                parsing_context.wf(),
                lower_functions(*stmts, i as int, f1) == Some(parsing_context@.functions),
                register_functions(*stmts, n as int, o.functions) == Some(f1),
                parsing_context@ == gen_functions(*stmts, i as int, o1),
                o == old(parsing_context)@,
                parsing_context@.frames == o.frames,
                grows(o1, parsing_context@, stmts_weight(*stmts, i as int)),
                o1.labels == o.labels,
                o1.string_counter == o.string_counter,
                budget(o, 2 * w),
                w == stmts_weight(*stmts, n as int),
                top(o).stack_size >= 0,
                o.frames.len() >= 1,
            decreases n - i,
        {
            let ghost a = parsing_context@;
            proof {
                assert(stmts_weight(*stmts, i as int + 1) == stmts_weight(*stmts, i as int) + stmt_weight(stmts@[i as int]));
                lemma_stmts_weight_mono(*stmts, i as int + 1, n as int);
            }
            match &stmts[i] {
                StatementNode::Function { name, scope, args } => {
                    match lower_function_body(name, &**scope, args, parsing_context) {
                        Ok(()) => {},
                        Err(e) => {
                            proof {
                                assert(lower_functions(*stmts, i as int + 1, f1) is None);
                                lemma_lower_functions_fails(*stmts, i as int + 1, n as int, f1);
                            }
                            return Err(e);
                        },
                    }
                },
                _ => {},
            }
            proof {
                let b = parsing_context@;
                lemma_grows_trans(o1, a, b, stmts_weight(*stmts, i as int), stmt_weight(stmts@[i as int]), stmts_weight(*stmts, i as int + 1));
            }
            i = i + 1;
        }
        let ghost f2 = parsing_context@.functions;
        let ghost o15 = parsing_context@;
        parsing_context.push_line("global _start:");
        parsing_context.push_line("_start:");
        parsing_context.push_line("    push rbp");
        parsing_context.push_line("    mov rbp, rsp");
        let ghost o2 = parsing_context@;
        proof {
            assert(grows(o, o1, 0));
            lemma_grows_trans(o, o1, parsing_context@, 0, w, w);
        }
        let mut i: usize = 0;
        while i < n
            invariant
                i <= n,
                n == stmts@.len(),
                stmts == &self.statements,
                parsing_context.wf(),
                lower_top(*stmts, i as int, shape(top(o)), f2) == Some((shape(top(parsing_context@)), parsing_context@.functions)),
                register_functions(*stmts, n as int, o.functions) == Some(f1),
                lower_functions(*stmts, n as int, f1) == Some(f2),
                o == old(parsing_context)@,
                parsing_context@ == gen_top(*stmts, i as int, o2),
                o2 == after_line(after_line(after_line(after_line(gen_functions(*stmts, n as int, o1), "global _start:"@), "_start:"@), "    push rbp"@), "    mov rbp, rsp"@),
                o1 == after_line(CtxV { functions: f1, ..o }, "section .text"@),
                parsing_context@.frames.len() == o.frames.len(),
                parsing_context@.frames.drop_last() == o.frames.drop_last(),
                top(parsing_context@).loop_labels == top(o).loop_labels,
                grows(o2, parsing_context@, stmts_weight(*stmts, i as int)),
                top(parsing_context@).stack_size <= top(o).stack_size + 8 * stmts_weight(*stmts, i as int),
                o2.labels <= o.labels + w,
                o2.string_counter <= o.string_counter + w,
                o2.frames == o.frames,
                budget(o, 2 * w),
                w == stmts_weight(*stmts, n as int),
                top(o).stack_size >= 0,
                o.frames.len() >= 1,
            decreases n - i,
        {
            let ghost a = parsing_context@;
            proof {
                assert(stmts_weight(*stmts, i as int + 1) == stmts_weight(*stmts, i as int) + stmt_weight(stmts@[i as int]));
                lemma_stmts_weight_mono(*stmts, i as int + 1, n as int);
            }
            let is_function = match &stmts[i] {
                StatementNode::Function { .. } => true,
                _ => false,
            };
            if !is_function {
                match stmts[i].to_asm(parsing_context) {
                    Ok(()) => {},
                    Err(e) => {
                        proof {
                            assert(lower_top(*stmts, i as int + 1, shape(top(o)), f2) is None);
                            lemma_lower_top_fails(*stmts, i as int + 1, n as int, shape(top(o)), f2);
                        }
                        return Err(e);
                    },
                }
                proof {
                    lemma_lower_keeps_frame(stmts@[i as int], shape(top(a)), a.functions);
                }
            }
            proof {
                let b = parsing_context@;
                lemma_grows_trans(o2, a, b, stmts_weight(*stmts, i as int), stmt_weight(stmts@[i as int]), stmts_weight(*stmts, i as int + 1));
            }
            i = i + 1;
        }
        let ghost o3 = parsing_context@;
        parsing_context.push_line("section .data");
        parsing_context.emit_data_section();
        proof {
            let f = parsing_context@;
            let functions = o15.output.subrange(o1.output.len() as int, o15.output.len() as int);
            let main = o3.output.subrange(o2.output.len() as int, o3.output.len() as int);
            assert(o15.output =~= o1.output + functions) by {
                assert(o1.output.is_prefix_of(o15.output));
            }
            assert(o3.output =~= o2.output + main) by {
                assert(o2.output.is_prefix_of(o3.output));
            }
            assert(f.strings == o3.strings);
            assert(f.output =~= o.output + program_text(functions, main, f.strings));
            assert(f == gen_program(self.statements, o));
        }
        Ok(())
    }
}

} // verus!
