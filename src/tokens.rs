//! A forward-only cursor over a token sequence that hides line markers.
use vstd::prelude::*;
use crate::error::CompilationError;
use crate::token::{Tok, Token};

verus! {

/// The first position at or after `i` that holds no line marker
/// (`toks.len()` when there is none).
pub open spec fn skip_lines(toks: Seq<Tok>, i: int) -> int
    decreases toks.len() - i,
{
    if i >= toks.len() || i < 0 {
        if i < 0 { 0 } else { i }
    } else if toks[i] is EndLine {
        skip_lines(toks, i + 1)
    } else {
        i
    }
}

/// Position of the `k`-th token (counting from 0) at or after `i` that is no line marker.
pub open spec fn nth_real(toks: Seq<Tok>, i: int, k: nat) -> int
    decreases k,
{
    if k == 0 {
        skip_lines(toks, i)
    } else {
        nth_real(toks, skip_lines(toks, i) + 1, (k - 1) as nat)
    }
}

/// How many line markers lie in `toks[a..b]`.
pub open spec fn count_lines(toks: Seq<Tok>, a: int, b: int) -> nat
    decreases b - a,
{
    if a >= b || a < 0 || b > toks.len() {
        0
    } else if toks[b - 1] is EndLine {
        count_lines(toks, a, b - 1) + 1
    } else {
        count_lines(toks, a, b - 1)
    }
}

/// The line number after passing `toks[0..i]`, starting from line 1.
pub open spec fn line_after(toks: Seq<Tok>, i: int) -> int {
    let n = count_lines(toks, 0, i) as int + 1;
    if n < usize::MAX { n } else { usize::MAX as int }
}

pub proof fn lemma_skip_lines_bounds(toks: Seq<Tok>, i: int)
    requires
        0 <= i <= toks.len(),
    ensures
        i <= skip_lines(toks, i) <= toks.len(),
        skip_lines(toks, i) < toks.len() ==> !(toks[skip_lines(toks, i)] is EndLine),
        forall|j: int| i <= j < skip_lines(toks, i) ==> #[trigger] toks[j] is EndLine,
    decreases toks.len() - i,
{
    if i < toks.len() && toks[i] is EndLine {
        lemma_skip_lines_bounds(toks, i + 1);
    }
}

pub proof fn lemma_nth_real_bounds(toks: Seq<Tok>, i: int, k: nat)
    requires
        0 <= i,
    ensures
        i <= nth_real(toks, i, k),
        nth_real(toks, i, k) < toks.len() ==> !(toks[nth_real(toks, i, k)] is EndLine),
    decreases k,
{
    if i <= toks.len() {
        lemma_skip_lines_bounds(toks, i);
    }
    if k > 0 {
        lemma_nth_real_bounds(toks, skip_lines(toks, i) + 1, (k - 1) as nat);
    }
}

/// The token stream handed from the lexer to the parser.
pub struct Tokens {
    tokens: Vec<Token>,
    index: usize,
    line_num: usize,
}

impl Tokens {
    /// All tokens, line markers included.
    pub closed spec fn toks(&self) -> Seq<Tok> {
        self.tokens@.map_values(|t: Token| t@)
    }

    /// Position of the cursor.
    pub closed spec fn cursor(&self) -> int {
        self.index as int
    }

    /// The current line (counting from 1).
    pub closed spec fn line(&self) -> int {
        self.line_num as int
    }

    /// The cursor lies within the tokens, and the line is one more than the
    /// number of line markers already passed (held at `usize::MAX` beyond that).
    pub open spec fn wf(&self) -> bool {
        &&& 0 <= self.cursor() <= self.toks().len()
        &&& self.line() == line_after(self.toks(), self.cursor())
    }

    /// How many tokens lie at or after the cursor.
    pub open spec fn remaining(&self) -> int {
        self.toks().len() - self.cursor()
    }

    /// A stream positioned before the first token, on line 1.
    pub fn new(tokens: Vec<Token>) -> (r: Self)
        ensures
            r.wf(),
            r.toks() == tokens@.map_values(|t: Token| t@),
            r.cursor() == 0,
            r.line() == 1,
    {
        Tokens { tokens, index: 0, line_num: 1 }
    }

    /// Consumes line markers, counting them, then consumes and returns the next token.
    pub fn next(&mut self) -> (r: Result<Token, CompilationError>)
        requires
            old(self).wf(),
        ensures
            final(self).wf(),
            final(self).toks() == old(self).toks(),
            old(self).cursor() <= final(self).cursor(),
            r is Ok ==> old(self).cursor() < final(self).cursor(),
            skip_lines(old(self).toks(), old(self).cursor()) >= old(self).cursor(),
            ({
                let toks = old(self).toks();
                let j = skip_lines(toks, old(self).cursor());
                &&& j < toks.len() ==> (r matches Ok(t) && t@ == toks[j]
                    && final(self).cursor() == j + 1)
                &&& j >= toks.len() ==> (r matches Err(e) && e.message@ == "Missing Token"@
                    && final(self).cursor() == toks.len())
            }),
    {
        proof {
            lemma_skip_lines_bounds(self.toks(), self.cursor());
        }
        let ghost start = self.cursor();
        loop
            invariant
                start <= self.index <= self.tokens.len(),
                self.toks() == old(self).toks(),
                start == old(self).cursor(),
                forall|j: int| start <= j < self.index ==> #[trigger] self.toks()[j] is EndLine,
                skip_lines(self.toks(), start) == skip_lines(self.toks(), self.index as int),
                self.line_num == line_after(self.toks(), self.index as int),
            decreases self.tokens.len() - self.index,
        {
            if self.index >= self.tokens.len() {
                return Err(CompilationError::new("Missing Token"));
            }
            let is_line = match &self.tokens[self.index] {
                Token::EndLine => true,
                _ => false,
            };
            proof {
                assert(self.toks()[self.index as int] == self.tokens@[self.index as int]@);
            }
            if !is_line {
                let t = self.tokens[self.index].duplicate();
                self.index = self.index + 1;
                return Ok(t);
            }
            if self.line_num < usize::MAX {
                self.line_num = self.line_num + 1;
            }
            self.index = self.index + 1;
        }
    }

    /// The `offset`-th token at or after the cursor, line markers not counted,
    /// without consuming anything.
    pub fn peek(&self, offset: usize) -> (r: Result<Token, CompilationError>)
        requires
            self.wf(),
        ensures
            nth_real(self.toks(), self.cursor(), offset as nat) >= self.cursor(),
            ({
                let j = nth_real(self.toks(), self.cursor(), offset as nat);
                &&& j < self.toks().len() ==> (r matches Ok(t) && t@ == self.toks()[j])
                &&& j >= self.toks().len() ==> (r matches Err(e) && e.message@ == "Missing Token"@)
            }),
    {
        let mut i: usize = self.index;
        let mut k: usize = offset;
        proof {
            lemma_nth_real_bounds(self.toks(), self.cursor(), offset as nat);
        }
        loop
            invariant
                self.index <= i <= self.tokens.len(),
                nth_real(self.toks(), i as int, k as nat)
                    == nth_real(self.toks(), self.cursor(), offset as nat),
                self.toks().len() == self.tokens.len(),
            decreases self.tokens.len() - i, k,
        {
            proof {
                lemma_skip_lines_bounds(self.toks(), i as int);
                lemma_nth_real_bounds(self.toks(), i as int, k as nat);
            }
            if i >= self.tokens.len() {
                proof {
                    lemma_nth_real_past_end(self.toks(), i as int, k as nat);
                }
                return Err(CompilationError::new("Missing Token"));
            }
            proof {
                assert(self.toks()[i as int] == self.tokens@[i as int]@);
            }
            let is_line = match &self.tokens[i] {
                Token::EndLine => true,
                _ => false,
            };
            if !is_line {
                if k == 0 {
                    return Ok(self.tokens[i].duplicate());
                }
                k = k - 1;
            }
            i = i + 1;
        }
    }

    /// The line on which the cursor stands.
    pub fn get_line_num(&self) -> (r: usize)
        ensures
            r == self.line(),
    {
        self.line_num
    }
}

proof fn lemma_nth_real_past_end(toks: Seq<Tok>, i: int, k: nat)
    requires
        i >= toks.len(),
    ensures
        nth_real(toks, i, k) >= toks.len(),
    decreases k,
{
    if k > 0 {
        lemma_nth_real_past_end(toks, skip_lines(toks, i) + 1, (k - 1) as nat);
    }
}

} // verus!
