//! A small compiler from a toy imperative language to textual x86-64 assembly:
//! a lexer over grapheme clusters, a recursive-descent parser with precedence
//! climbing for expressions, and a code generator for a stack machine.
use vstd::prelude::*;

pub mod text;
pub mod error;
pub mod token;
pub mod tokens;
pub mod lexer;
pub mod context;
pub mod ast;
pub mod codegen;
pub mod grammar;
pub mod parser;
pub mod weight;
pub mod laws;

pub use ast::{Expression, IdentifierValueType, ProgramNode, StatementNode, Term};
pub use context::{GlobalString, ParsingContext, Scope, StackPointer, Variable};
pub use error::CompilationError;
pub use lexer::{tokenize, tokenize_graphemes};
pub use token::{OperatorInfo, Token};
pub use tokens::Tokens;

verus! {

use crate::codegen::program_text;
use crate::context::CtxV;
use crate::lexer::{graphemes_of, lex};
use crate::weight::WEIGHT_CAP;
use crate::ast::{program_lowers, shape, stmts_weight};
use crate::codegen::gen_program;
use crate::context::top;
use crate::grammar::{program_of, program_view};
use crate::token::Tok;
use crate::tokens::line_after;

/// The context lowering starts from: the top-level frame with one scope open.
pub open spec fn initial_context() -> CtxV {
    let c = CtxV {
        output: seq![],
        labels: 0,
        strings: seq![],
        string_counter: 0,
        frames: seq![crate::context::empty_frame()],
        functions: seq![],
    };
    crate::context::with_top(c, crate::context::open_scope(crate::context::empty_frame()))
}

/// What compiling the program `p` gives, an error carrying `line`: too
/// large, or else `Ok` exactly when it lowers, with the generated text.
pub open spec fn lowered(p: ProgramNode, r: Result<String, CompilationError>, line: int) -> bool {
    if stmts_weight(p.statements, p.statements@.len() as int) >= WEIGHT_CAP {
        r matches Err(e) && e.message@ == "program too large"@ && e.line_num == Some(line as usize)
    } else {
        &&& (r is Ok) == program_lowers(p.statements, shape(top(initial_context())), seq![])
        &&& r matches Ok(s) ==> s@ == gen_program(p.statements, initial_context()).output
        &&& r matches Err(e) ==> e.line_num == Some(line as usize)
    }
}

/// What compiling the tokens `toks` from `cursor` gives: a parse error with
/// the line where parsing stopped, or the compilation of the program read.
pub open spec fn compiled(toks: Seq<Tok>, cursor: int, r: Result<String, CompilationError>) -> bool {
    match program_of(toks, cursor, seq![]) {
        Err((m, j)) => r matches Err(e) && e.message@ == m && e.line_num == Some(line_after(toks, j) as usize),
        Ok((pv, j)) => exists|p: ProgramNode| #[trigger] program_view(p) == pv && lowered(p, r, line_after(toks, j)),
    }
}

/// Parses the whole token stream and lowers it to assembly. Every error
/// carries the line on which the stream stopped.
pub fn parse(tokens: &mut Tokens) -> (r: Result<String, CompilationError>)
    requires
        old(tokens).wf(),
    ensures
        compiled(old(tokens).toks(), old(tokens).cursor(), r),
        r matches Ok(s) ==> exists|functions: Seq<char>, main: Seq<char>, strings: Seq<(Seq<char>, Seq<char>)>|
            s@ == #[trigger] program_text(functions, main, strings),
{
    let mut parsing_context = ParsingContext::new();
    parsing_context.push_scope();
    let root = match ProgramNode::parse(tokens) {
        Ok(root) => root,
        Err(e) => {
            let mut e = e;
            e.add_line_num(tokens.get_line_num());
            return Err(e);
        },
    };
    let line = tokens.get_line_num();
    proof {
        assert(program_of(old(tokens).toks(), old(tokens).cursor(), seq![]) is Ok);
    }
    if root.weight() >= WEIGHT_CAP {
        let mut e = CompilationError::new("program too large");
        e.add_line_num(line);
        return Err(e);
    }
    proof {
        parsing_context.lemma_wf();
        crate::context::lemma_with_top(
            CtxV { output: seq![], labels: 0, strings: seq![], string_counter: 0, frames: seq![crate::context::empty_frame()], functions: seq![] },
            crate::context::open_scope(crate::context::empty_frame()),
        );
        assert(parsing_context@ == initial_context());
    }
    match root.to_asm(&mut parsing_context) {
        Ok(()) => {},
        Err(e) => {
            let mut e = e;
            e.add_line_num(line);
            return Err(e);
        },
    }
    proof {
        let f = parsing_context@;
        let w = choose|functions: Seq<char>, main: Seq<char>| f.output == seq![] + #[trigger] crate::codegen::program_text(functions, main, f.strings);
        let t = crate::codegen::program_text(w.0, w.1, f.strings);
        assert(f.output =~= t);
    }
    Ok(parsing_context.into_output())
}

/// Compiles source text to assembly text, or to the first error met.
pub fn compile_to_asm(code: &String) -> (r: Result<String, CompilationError>)
    ensures
        lex(graphemes_of(code@)) is None ==> (r matches Err(e) && e.message@ == "unmatched \""@
            && e.line_num is None),
        lex(graphemes_of(code@)) matches Some(ts) ==> compiled(ts, 0, r),
        r matches Ok(s) ==> exists|functions: Seq<char>, main: Seq<char>, strings: Seq<(Seq<char>, Seq<char>)>|
            s@ == #[trigger] program_text(functions, main, strings),
{
    match tokenize(code) {
        Ok(mut tokens) => parse(&mut tokens),
        Err(e) => Err(e),
    }
}

} // verus!
