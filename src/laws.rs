//! Properties of the compiler that relate several of its parts.
use vstd::prelude::*;
use crate::ast::{expr_ok, lower_stmt, Expression, Shape, StatementNode};
use crate::codegen::{after_close, after_expr, after_line, gen_stmt, gen_stmts, is_comparison, jump_of};
use crate::context::{label_text, top, with_top, CtxV};
use crate::context::{bind, close_scope, frame_lookup, open_scope, scope_lookup, FrameV};
use crate::lexer::{close_word, find_quote, is_sep, lemma_find_quote_bounds, lex, lex_from, run, sep_token, single, word_token};
use crate::token::Tok;

verus! {

/// What a comparison means in the language: 1 when it holds, else 0.
pub open spec fn compare(op: Tok, a: int, b: int) -> int {
    let holds = match op {
        Tok::LessThan => a < b,
        Tok::GreaterThan => a > b,
        _ => a == b,
    };
    if holds { 1 } else { 0 }
}

/// Whether the signed conditional jump `j` is taken after `cmp a, b`.
pub open spec fn jump_taken(j: Seq<char>, a: int, b: int) -> bool {
    if j == "jl"@ {
        a < b
    } else if j == "jg"@ {
        a > b
    } else if j == "je"@ {
        a == b
    } else {
        false
    }
}

/// The value in `rdi` at the join label of the comparison code with jump
/// `j`: 1 on the taken path, 0 on the fall-through path.
pub open spec fn materialized(j: Seq<char>, a: int, b: int) -> int {
    if jump_taken(j, a, b) { 1 } else { 0 }
}

/// For each of `<`, `>` and `=`, the jump chosen for its comparison code
/// materialises exactly the language's 0/1 value of the comparison.
pub proof fn lemma_comparison_materializes(op: Tok, a: int, b: int)
    requires
        is_comparison(op),
    ensures
        materialized(jump_of(op), a, b) == compare(op, a, b),
{
    reveal_strlit("jl");
    reveal_strlit("jg");
    reveal_strlit("je");
    assert("jl"@[1] != "jg"@[1]);
    assert("jl"@[1] != "je"@[1]);
    assert("jg"@[1] != "je"@[1]);
}

/// Once `name` is bound in the innermost scope, binding it there again is
/// refused (the binding is found in that scope).
pub proof fn lemma_redeclaration_refused(f: FrameV, name: Seq<char>, offset: i64)
    requires
        f.scopes.len() > 0,
    ensures
        scope_lookup(bind(f, name, offset).scopes.last().vars, name) == Some(offset),
{
}

/// Shadowing: in a freshly opened scope a name bound outside may be bound
/// again; inside, it resolves to the inner binding; once the scope closes, it
/// resolves as it did before.
pub proof fn lemma_shadowing(f: FrameV, name: Seq<char>, inner: i64)
    ensures
        scope_lookup(open_scope(f).scopes.last().vars, name) is None,
        frame_lookup(bind(open_scope(f), name, inner).scopes, name) == Some(inner),
        frame_lookup(close_scope(bind(open_scope(f), name, inner)).scopes, name) == frame_lookup(f.scopes, name),
{
    let g = bind(open_scope(f), name, inner);
    assert(scope_lookup(seq![], name) is None);
    assert(g.scopes.last().vars =~= seq![(name, inner)]);
    assert(g.scopes.last().vars.drop_last() =~= seq![]);
    assert(close_scope(g).scopes =~= f.scopes);
}

/// `break` outside any loop is refused.
pub proof fn lemma_break_outside_loop(sh: Shape, fns: Seq<Seq<char>>)
    requires
        sh.loops == 0,
    ensures
        lower_stmt(StatementNode::Break, sh, fns) is None,
{
}

/// `break` in the body of an `if` nested in a `while` body is accepted, at any
/// loop depth, whenever the two conditions are.
pub proof fn lemma_break_in_nested_if(
    cond: Expression,
    test: Expression,
    inner: Vec<StatementNode>,
    body: Vec<StatementNode>,
    sh: Shape,
    fns: Seq<Seq<char>>,
)
    requires
        sh.scopes.len() > 0,
        inner@ == seq![StatementNode::Break],
        body@ == seq![StatementNode::If { expr: test, scope: Box::new(StatementNode::Scope { statements: inner }) }],
    ensures
        lower_stmt(
            StatementNode::While { expr: cond, scope: Box::new(StatementNode::Scope { statements: body }) },
            sh,
            fns,
        ) is Some <==> (expr_ok(cond, sh.scopes, fns) && expr_ok(test, crate::ast::open_shape(sh).scopes, fns)),
{
    let s1 = Shape { loops: sh.loops + 1, ..sh };
    let s2 = crate::ast::open_shape(s1);
    let s3 = crate::ast::open_shape(s2);
    assert(s2.scopes == crate::ast::open_shape(sh).scopes);
    let brk = StatementNode::Break;
    let blk = StatementNode::Scope { statements: inner };
    let iff = StatementNode::If { expr: test, scope: Box::new(blk) };
    assert(inner@[0] == brk);
    assert(body@[0] == iff);
    assert(crate::ast::lower_stmts(inner, 0, s3, fns) == Some((s3, fns)));
    assert(lower_stmt(brk, s3, fns) == Some((s3, fns)));
    assert(crate::ast::lower_stmts(inner, 1, s3, fns) == Some((s3, fns)));
    assert(lower_stmt(blk, s2, fns) == Some((crate::ast::close_shape(s3), fns)));
    assert(crate::ast::lower_stmts(body, 0, s2, fns) == Some((s2, fns)));
    if expr_ok(test, s2.scopes, fns) {
        assert(lower_stmt(iff, s2, fns) is Some);
        assert(crate::ast::lower_stmts(body, 1, s2, fns) is Some);
        assert(lower_stmt(StatementNode::Scope { statements: body }, s1, fns) is Some);
    } else {
        assert(lower_stmt(iff, s2, fns) is None);
        assert(crate::ast::lower_stmts(body, 1, s2, fns) is None);
        assert(lower_stmt(StatementNode::Scope { statements: body }, s1, fns) is None);
    }
}

/// The `break` in the body of an `if` nested in a `while` body jumps to the
/// label that the loop places after its end: the innermost enclosing loop's
/// exit label.
pub proof fn lemma_break_jumps_to_loop_exit(
    cond: Expression,
    test: Expression,
    inner: Vec<StatementNode>,
    body: Vec<StatementNode>,
    c: CtxV,
)
    requires
        c.frames.len() >= 1,
        inner@ == seq![StatementNode::Break],
        body@ == seq![StatementNode::If { expr: test, scope: Box::new(StatementNode::Scope { statements: inner }) }],
    ensures
        ({
            let w = StatementNode::While { expr: cond, scope: Box::new(StatementNode::Scope { statements: body }) };
            let exit = label_text("LABEL"@, c.labels + 2);
            let out = gen_stmt(w, c).output;
            &&& exists|pre: Seq<char>, post: Seq<char>| out == pre + #[trigger] line_of_jump(exit) + post
            &&& out.len() >= (exit + ":\n"@).len()
            &&& out.subrange(out.len() - (exit + ":\n"@).len(), out.len() as int) == exit + ":\n"@
        }),
{
    let w = StatementNode::While { expr: cond, scope: Box::new(StatementNode::Scope { statements: body }) };
    let t = label_text("LABEL"@, c.labels + 1);
    let x = label_text("LABEL"@, c.labels + 2);
    let c0 = CtxV { labels: c.labels + 2, ..c };
    let c1 = after_line(with_top(c0, crate::context::FrameV { loop_labels: top(c0).loop_labels.push(x), ..top(c0) }), t + ":"@);
    let c2 = after_line(after_line(after_expr(cond, c1), "    cmp rdi, 0"@), "    je "@ + x);
    crate::context::lemma_with_top(c0, crate::context::FrameV { loop_labels: top(c0).loop_labels.push(x), ..top(c0) });
    assert(top(c2).loop_labels.last() == x);
    let blk = StatementNode::Scope { statements: inner };
    let iff = StatementNode::If { expr: test, scope: Box::new(blk) };
    let d1 = with_top(c2, crate::context::open_scope(top(c2)));
    crate::context::lemma_with_top(c2, crate::context::open_scope(top(c2)));
    assert(body@[0] == iff);
    assert(gen_stmts(body, 0, d1) == d1);
    assert(gen_stmts(body, 1, d1) == gen_stmt(iff, d1));
    let l = label_text("LABEL"@, d1.labels + 1);
    let e1 = after_expr(test, CtxV { labels: d1.labels + 1, ..d1 });
    let e2 = after_line(after_line(e1, "    cmp rdi, 0"@), "    je "@ + l);
    let g1 = with_top(e2, crate::context::open_scope(top(e2)));
    crate::context::lemma_with_top(e2, crate::context::open_scope(top(e2)));
    assert(inner@[0] == StatementNode::Break);
    assert(gen_stmts(inner, 0, g1) == g1);
    assert(top(d1).loop_labels == top(c2).loop_labels);
    assert(top(e2).loop_labels == top(d1).loop_labels);
    assert(top(g1).loop_labels == top(e2).loop_labels);
    let g2 = after_line(g1, "    jmp "@ + x);
    assert(gen_stmt(StatementNode::Break, g1) == g2);
    assert(gen_stmts(inner, 1, g1) == g2);
    let g3 = after_close(g2);
    assert(gen_stmt(blk, e2) == g3);
    let e3 = after_line(g3, l + ":"@);
    assert(gen_stmt(iff, d1) == e3);
    let d2 = after_close(e3);
    assert(gen_stmt(StatementNode::Scope { statements: body }, c2) == d2);
    let c3 = after_line(after_line(d2, "    jmp "@ + t), x + ":"@);
    let fin = gen_stmt(w, c);
    assert(fin.output == c3.output);
    let pre = g1.output;
    let post = crate::context::repeat("    pop rsi\n"@, crate::context::close_scope_pops(top(g2)))
        + (l + ":"@ + seq!['\n'])
        + crate::context::repeat("    pop rsi\n"@, crate::context::close_scope_pops(top(e3)))
        + ("    jmp "@ + t + seq!['\n'])
        + (x + ":"@ + seq!['\n']);
    assert(fin.output =~= pre + line_of_jump(x) + post);
    reveal_strlit(":");
    reveal_strlit(":\n");
    assert(x + ":"@ + seq!['\n'] =~= x + ":\n"@);
    assert(fin.output.subrange(fin.output.len() - (x + ":\n"@).len(), fin.output.len() as int) =~= x + ":\n"@);
}

/// The line of a jump to `label`.
pub open spec fn line_of_jump(label: Seq<char>) -> Seq<char> {
    "    jmp "@ + label + seq!['\n']
}

/// Lexing a single word, then reading back an identifier's text, gives the
/// word: a run of graphemes with no separator becomes one token, the word's
/// own text when it is an identifier.
pub proof fn lemma_word_round_trip(gs: Seq<Seq<char>>)
    requires
        run(gs, 0, gs.len() as int).len() > 0,
        forall|i: int| 0 <= i < gs.len() ==> !is_sep(#[trigger] gs[i]),
    ensures
        lex(gs) == Some(seq![word_token(run(gs, 0, gs.len() as int))]),
        word_token(run(gs, 0, gs.len() as int)) is Identifier ==>
            word_token(run(gs, 0, gs.len() as int))->Identifier_0 == run(gs, 0, gs.len() as int),
{
    lemma_word_steps(gs, gs.len() as int);
}

proof fn lemma_word_steps(gs: Seq<Seq<char>>, k: int)
    requires
        0 <= k <= gs.len(),
        forall|i: int| 0 <= i < gs.len() ==> !is_sep(#[trigger] gs[i]),
    ensures
        lex_from(gs, 0, gs.len() - k) == lex_from(gs, 0, gs.len() as int),
    decreases k,
{
    if k > 0 {
        lemma_word_steps(gs, k - 1);
        let i = gs.len() - k;
        assert(!is_sep(gs[i]));
        assert(!single(gs[i], '"'));
    }
}

/// Lexing a quoted string without inner quotes, then reading back its text,
/// gives the text between the quotes.
pub proof fn lemma_string_round_trip(body: Seq<Seq<char>>)
    requires
        forall|i: int| 0 <= i < body.len() ==> !single(#[trigger] body[i], '"'),
    ensures
        lex(seq![seq!['"']] + body + seq![seq!['"']]) == Some(seq![Tok::String(body.flatten())]),
{
    let gs = seq![seq!['"']] + body + seq![seq!['"']];
    let n = gs.len() as int;
    lemma_find_quote_end(gs, body, 1);
    assert(single(gs[0], '"'));
    assert(gs.subrange(1, n - 1) =~= body);
    assert(gs.subrange(0, 0) =~= seq![]);
    assert(gs.subrange(n, n) =~= seq![]);
    assert(run(gs, 0, 0) =~= seq![]);
    assert(run(gs, n, n) =~= seq![]);
    assert(run(gs, 1, n - 1) == body.flatten());
    assert(find_quote(gs, 1) == n - 1);
    assert(crate::lexer::close_word(run(gs, 0, 0)) =~= seq![]);
    assert(crate::lexer::close_word(run(gs, n, n)) =~= seq![]);
    assert(lex_from(gs, n, n) == Some(Seq::<Tok>::empty()));
    assert(Seq::<Tok>::empty() + seq![Tok::String(body.flatten())] + Seq::<Tok>::empty() =~= seq![Tok::String(body.flatten())]);
}

proof fn lemma_find_quote_end(gs: Seq<Seq<char>>, body: Seq<Seq<char>>, i: int)
    requires
        gs == seq![seq!['"']] + body + seq![seq!['"']],
        1 <= i <= body.len() + 1,
        forall|k: int| 0 <= k < body.len() ==> !single(#[trigger] body[k], '"'),
    ensures
        find_quote(gs, i) == body.len() + 1,
    decreases body.len() + 1 - i,
{
    if i <= body.len() {
        assert(gs[i] == body[i - 1]);
        lemma_find_quote_end(gs, body, i + 1);
    } else {
        assert(gs[i] == seq!['"']);
    }
}

/// The source text a token is read back as: a word's spelling, a string's
/// contents, an integer's decimal form; punctuation and line markers are
/// separators and read back as nothing.
pub open spec fn token_text(t: Tok) -> Seq<char> {
    match t {
        Tok::Identifier(s) => s,
        Tok::String(s) => s,
        Tok::Int(v) => crate::text::signed_decimal(v as int),
        Tok::Return => "return"@,
        Tok::Declaration => "let"@,
        Tok::If => "if"@,
        Tok::While => "while"@,
        Tok::Break => "break"@,
        Tok::Print => "print"@,
        Tok::Read => "read"@,
        Tok::Function => "fn"@,
        _ => seq![],
    }
}

/// The text read back from a token sequence.
pub open spec fn texts(ts: Seq<Tok>) -> Seq<char> {
    ts.map_values(|t: Tok| token_text(t)).flatten()
}

/// The lexical content of `gs[i..]`: every grapheme but the separators, and
/// the contents of string literals without their quotes.
pub open spec fn content_from(gs: Seq<Seq<char>>, i: int) -> Seq<char>
    decreases gs.len() - i,
    via content_from_decreases
{
    if i < 0 || i >= gs.len() {
        seq![]
    } else if single(gs[i], '"') {
        let j = find_quote(gs, i + 1);
        if j >= gs.len() { seq![] } else { run(gs, i + 1, j) + content_from(gs, j + 1) }
    } else if is_sep(gs[i]) {
        content_from(gs, i + 1)
    } else {
        gs[i] + content_from(gs, i + 1)
    }
}

#[via_fn]
proof fn content_from_decreases(gs: Seq<Seq<char>>, i: int) {
    if 0 <= i < gs.len() {
        lemma_find_quote_bounds(gs, i + 1);
    }
}

/// A word reads back as itself: true of identifiers and keywords, false of
/// `true`, `false` and integers not written in plain decimal.
pub open spec fn word_kept(w: Seq<char>) -> bool {
    w.len() == 0 || token_text(word_token(w)) == w
}

/// Every word of `gs[i..]` (the pending one starting at `a`) reads back as itself.
pub open spec fn words_kept_from(gs: Seq<Seq<char>>, a: int, i: int) -> bool
    decreases gs.len() - i,
    via words_kept_decreases
{
    if i < 0 || i >= gs.len() || a < 0 || a > i {
        word_kept(run(gs, a, i))
    } else if single(gs[i], '"') {
        let j = find_quote(gs, i + 1);
        j < gs.len() ==> word_kept(run(gs, a, i)) && words_kept_from(gs, j + 1, j + 1)
    } else if is_sep(gs[i]) {
        word_kept(run(gs, a, i)) && words_kept_from(gs, i + 1, i + 1)
    } else {
        words_kept_from(gs, a, i + 1)
    }
}

#[via_fn]
proof fn words_kept_decreases(gs: Seq<Seq<char>>, a: int, i: int) {
    if 0 <= i < gs.len() {
        lemma_find_quote_bounds(gs, i + 1);
    }
}

proof fn lemma_texts_concat(x: Seq<Tok>, y: Seq<Tok>)
    ensures
        texts(x + y) == texts(x) + texts(y),
{
    assert((x + y).map_values(|t: Tok| token_text(t)) =~= x.map_values(|t: Tok| token_text(t)) + y.map_values(|t: Tok| token_text(t)));
    vstd::seq_lib::lemma_flatten_concat(x.map_values(|t: Tok| token_text(t)), y.map_values(|t: Tok| token_text(t)));
}

proof fn lemma_texts_close_word(w: Seq<char>)
    requires
        word_kept(w),
    ensures
        texts(close_word(w)) == w,
{
    if w.len() > 0 {
        assert(close_word(w).map_values(|t: Tok| token_text(t)) =~= seq![w]);
        seq![w].lemma_flatten_singleton();
    } else {
        assert(close_word(w).map_values(|t: Tok| token_text(t)) =~= Seq::<Seq<char>>::empty());
        assert(texts(close_word(w)) =~= w);
    }
}

proof fn lemma_texts_own(g: Seq<char>)
    ensures
        texts(match sep_token(g) {
            Some(t) => seq![t],
            None => Seq::<Tok>::empty(),
        }) == Seq::<char>::empty(),
{
    let own = match sep_token(g) {
        Some(t) => seq![t],
        None => Seq::<Tok>::empty(),
    };
    if let Some(t) = sep_token(g) {
        assert(own.map_values(|t: Tok| token_text(t)) =~= seq![Seq::<char>::empty()]);
        seq![Seq::<char>::empty()].lemma_flatten_singleton();
    } else {
        assert(own.map_values(|t: Tok| token_text(t)) =~= Seq::<Seq<char>>::empty());
    }
}

proof fn lemma_lex_from_content(gs: Seq<Seq<char>>, a: int, i: int)
    requires
        0 <= a <= i <= gs.len(),
        lex_from(gs, a, i) is Some,
        words_kept_from(gs, a, i),
    ensures
        texts(lex_from(gs, a, i).unwrap()) == run(gs, a, i) + content_from(gs, i),
    decreases gs.len() - i,
{
    let w = run(gs, a, i);
    if i == gs.len() {
        lemma_texts_close_word(w);
        assert(w + content_from(gs, i) =~= w);
    } else if single(gs[i], '"') {
        let j = find_quote(gs, i + 1);
        lemma_find_quote_bounds(gs, i + 1);
        let rest = lex_from(gs, j + 1, j + 1).unwrap();
        lemma_lex_from_content(gs, j + 1, j + 1);
        assert(run(gs, j + 1, j + 1) =~= seq![]) by {
            assert(gs.subrange(j + 1, j + 1) =~= Seq::<Seq<char>>::empty());
        }
        let st = seq![Tok::String(run(gs, i + 1, j))];
        lemma_texts_close_word(w);
        lemma_texts_concat(close_word(w), st);
        lemma_texts_concat(close_word(w) + st, rest);
        assert(st.map_values(|t: Tok| token_text(t)) =~= seq![run(gs, i + 1, j)]);
        seq![run(gs, i + 1, j)].lemma_flatten_singleton();
        assert(texts(lex_from(gs, a, i).unwrap()) =~= w + (run(gs, i + 1, j) + content_from(gs, j + 1)));
    } else if is_sep(gs[i]) {
        let own = match sep_token(gs[i]) {
            Some(t) => seq![t],
            None => Seq::<Tok>::empty(),
        };
        let rest = lex_from(gs, i + 1, i + 1).unwrap();
        lemma_lex_from_content(gs, i + 1, i + 1);
        assert(run(gs, i + 1, i + 1) =~= seq![]) by {
            assert(gs.subrange(i + 1, i + 1) =~= Seq::<Seq<char>>::empty());
        }
        lemma_texts_close_word(w);
        lemma_texts_own(gs[i]);
        lemma_texts_concat(close_word(w), own);
        lemma_texts_concat(close_word(w) + own, rest);
        assert(texts(lex_from(gs, a, i).unwrap()) =~= w + content_from(gs, i + 1));
    } else {
        lemma_lex_from_content(gs, a, i + 1);
        crate::lexer::lemma_run_push(gs, a, i);
        assert(run(gs, a, i + 1) + content_from(gs, i + 1) =~= w + (gs[i] + content_from(gs, i + 1)));
    }
}

/// Round trip: when the source lexes and each of its words reads back as
/// itself, reading back the tokens' text gives the source's lexical content,
/// that is the source without its separators and string quotes.
pub proof fn lemma_round_trip(gs: Seq<Seq<char>>)
    requires
        lex(gs) is Some,
        words_kept_from(gs, 0, 0),
    ensures
        texts(lex(gs).unwrap()) == content_from(gs, 0),
{
    lemma_lex_from_content(gs, 0, 0);
    assert(run(gs, 0, 0) =~= seq![]) by {
        assert(gs.subrange(0, 0) =~= Seq::<Seq<char>>::empty());
    }
    assert(run(gs, 0, 0) + content_from(gs, 0) =~= content_from(gs, 0));
}

/// `10 - 3 - 2` groups to the right: `-` takes as its right operand an
/// expression of operators of its own level.
pub proof fn lemma_grouping_examples()
    ensures
        crate::grammar::expr_of(
            seq![Tok::Int(10), Tok::Minus, Tok::Int(3), Tok::Minus, Tok::Int(2), Tok::EndStatement], 0, 0,
        ) == crate::grammar::Parsed::<crate::grammar::ExprV>::Ok((
            crate::grammar::ExprV::Binary {
                op: Tok::Minus,
                left: Box::new(crate::grammar::ExprV::Term(crate::grammar::TermV::Int(10))),
                right: Box::new(crate::grammar::ExprV::Binary {
                    op: Tok::Minus,
                    left: Box::new(crate::grammar::ExprV::Term(crate::grammar::TermV::Int(3))),
                    right: Box::new(crate::grammar::ExprV::Term(crate::grammar::TermV::Int(2))),
                }),
            },
            5,
        )),
{
    let toks = seq![Tok::Int(10), Tok::Minus, Tok::Int(3), Tok::Minus, Tok::Int(2), Tok::EndStatement];
    let i10 = crate::grammar::ExprV::Term(crate::grammar::TermV::Int(10));
    let i3 = crate::grammar::ExprV::Term(crate::grammar::TermV::Int(3));
    let i2 = crate::grammar::ExprV::Term(crate::grammar::TermV::Int(2));
    assert(crate::tokens::skip_lines(toks, 0) == 0);
    assert(crate::tokens::skip_lines(toks, 1) == 1);
    assert(crate::tokens::skip_lines(toks, 2) == 2);
    assert(crate::tokens::skip_lines(toks, 3) == 3);
    assert(crate::tokens::skip_lines(toks, 4) == 4);
    assert(crate::tokens::skip_lines(toks, 5) == 5);
    assert(crate::grammar::term_of(toks, 4) == crate::grammar::Parsed::<crate::grammar::TermV>::Ok((crate::grammar::TermV::Int(2), 5)));
    assert(crate::grammar::climb_of(toks, 5, i2, 1) == crate::grammar::Parsed::<crate::grammar::ExprV>::Ok((i2, 5)));
    assert(crate::grammar::expr_of(toks, 4, 1) == crate::grammar::Parsed::<crate::grammar::ExprV>::Ok((i2, 5)));
    assert(crate::grammar::term_of(toks, 2) == crate::grammar::Parsed::<crate::grammar::TermV>::Ok((crate::grammar::TermV::Int(3), 3)));
    let r32 = crate::grammar::ExprV::Binary { op: Tok::Minus, left: Box::new(i3), right: Box::new(i2) };
    assert(crate::grammar::climb_of(toks, 5, r32, 1) == crate::grammar::Parsed::<crate::grammar::ExprV>::Ok((r32, 5)));
    assert(crate::grammar::climb_of(toks, 3, i3, 1) == crate::grammar::Parsed::<crate::grammar::ExprV>::Ok((r32, 5)));
    assert(crate::grammar::expr_of(toks, 2, 1) == crate::grammar::Parsed::<crate::grammar::ExprV>::Ok((r32, 5)));
    assert(crate::grammar::term_of(toks, 0) == crate::grammar::Parsed::<crate::grammar::TermV>::Ok((crate::grammar::TermV::Int(10), 1)));
    let all = crate::grammar::ExprV::Binary { op: Tok::Minus, left: Box::new(i10), right: Box::new(r32) };
    assert(crate::grammar::climb_of(toks, 5, all, 0) == crate::grammar::Parsed::<crate::grammar::ExprV>::Ok((all, 5)));
    assert(crate::grammar::climb_of(toks, 1, i10, 0) == crate::grammar::Parsed::<crate::grammar::ExprV>::Ok((all, 5)));
}

/// In `1 + 2 * 3`, `*` binds tighter than `+`.
pub proof fn lemma_precedence_example()
    ensures
        crate::grammar::expr_of(
            seq![Tok::Int(1), Tok::Plus, Tok::Int(2), Tok::Star, Tok::Int(3), Tok::EndStatement], 0, 0,
        ) == crate::grammar::Parsed::<crate::grammar::ExprV>::Ok((
            crate::grammar::ExprV::Binary {
                op: Tok::Plus,
                left: Box::new(crate::grammar::ExprV::Term(crate::grammar::TermV::Int(1))),
                right: Box::new(crate::grammar::ExprV::Binary {
                    op: Tok::Star,
                    left: Box::new(crate::grammar::ExprV::Term(crate::grammar::TermV::Int(2))),
                    right: Box::new(crate::grammar::ExprV::Term(crate::grammar::TermV::Int(3))),
                }),
            },
            5,
        )),
{
    let toks = seq![Tok::Int(1), Tok::Plus, Tok::Int(2), Tok::Star, Tok::Int(3), Tok::EndStatement];
    let i1 = crate::grammar::ExprV::Term(crate::grammar::TermV::Int(1));
    let i2 = crate::grammar::ExprV::Term(crate::grammar::TermV::Int(2));
    let i3 = crate::grammar::ExprV::Term(crate::grammar::TermV::Int(3));
    assert(crate::tokens::skip_lines(toks, 0) == 0);
    assert(crate::tokens::skip_lines(toks, 1) == 1);
    assert(crate::tokens::skip_lines(toks, 2) == 2);
    assert(crate::tokens::skip_lines(toks, 3) == 3);
    assert(crate::tokens::skip_lines(toks, 4) == 4);
    assert(crate::tokens::skip_lines(toks, 5) == 5);
    assert(crate::grammar::term_of(toks, 4) == crate::grammar::Parsed::<crate::grammar::TermV>::Ok((crate::grammar::TermV::Int(3), 5)));
    assert(crate::grammar::climb_of(toks, 5, i3, 3) == crate::grammar::Parsed::<crate::grammar::ExprV>::Ok((i3, 5)));
    assert(crate::grammar::expr_of(toks, 4, 3) == crate::grammar::Parsed::<crate::grammar::ExprV>::Ok((i3, 5)));
    let m = crate::grammar::ExprV::Binary { op: Tok::Star, left: Box::new(i2), right: Box::new(i3) };
    assert(crate::grammar::term_of(toks, 2) == crate::grammar::Parsed::<crate::grammar::TermV>::Ok((crate::grammar::TermV::Int(2), 3)));
    assert(crate::grammar::climb_of(toks, 5, m, 2) == crate::grammar::Parsed::<crate::grammar::ExprV>::Ok((m, 5)));
    assert(crate::grammar::climb_of(toks, 3, i2, 2) == crate::grammar::Parsed::<crate::grammar::ExprV>::Ok((m, 5)));
    assert(crate::grammar::expr_of(toks, 2, 2) == crate::grammar::Parsed::<crate::grammar::ExprV>::Ok((m, 5)));
    assert(crate::grammar::term_of(toks, 0) == crate::grammar::Parsed::<crate::grammar::TermV>::Ok((crate::grammar::TermV::Int(1), 1)));
    let all = crate::grammar::ExprV::Binary { op: Tok::Plus, left: Box::new(i1), right: Box::new(m) };
    assert(crate::grammar::climb_of(toks, 5, all, 0) == crate::grammar::Parsed::<crate::grammar::ExprV>::Ok((all, 5)));
    assert(crate::grammar::climb_of(toks, 1, i1, 0) == crate::grammar::Parsed::<crate::grammar::ExprV>::Ok((all, 5)));
}

/// `let name[0] = 0;` is refused while parsing, with the array-size error.
pub proof fn lemma_zero_array_size_refused(name: Seq<char>)
    ensures
        crate::grammar::program_of(
            seq![Tok::Declaration, Tok::Identifier(name), Tok::OpenSquare, Tok::Int(0), Tok::ClosedSquare,
                Tok::Equals, Tok::Int(0), Tok::EndStatement],
            0,
            seq![],
        ) == crate::grammar::Parsed::<Seq<crate::grammar::StmtV>>::Err(("array size cant be negative or 0"@, 4)),
{
    let toks = seq![Tok::Declaration, Tok::Identifier(name), Tok::OpenSquare, Tok::Int(0), Tok::ClosedSquare,
        Tok::Equals, Tok::Int(0), Tok::EndStatement];
    assert(crate::tokens::skip_lines(toks, 0) == 0);
    assert(crate::tokens::skip_lines(toks, 1) == 1);
    assert(crate::tokens::skip_lines(toks, 2) == 2);
    assert(crate::tokens::skip_lines(toks, 3) == 3);
    assert(crate::grammar::size_of(toks, 3) == crate::grammar::Parsed::<nat>::Err(("array size cant be negative or 0"@, 4)));
    assert(crate::grammar::decl_of(toks, 1) == crate::grammar::Parsed::<crate::grammar::StmtV>::Err(("array size cant be negative or 0"@, 4)));
    assert(crate::grammar::stmt_of(toks, 0) == crate::grammar::Parsed::<crate::grammar::StmtV>::Err(("array size cant be negative or 0"@, 4)));
}

} // verus!
