//! Turns source text into tokens, one grapheme cluster at a time.
use vstd::prelude::*;
use unicode_segmentation::UnicodeSegmentation;
use crate::error::CompilationError;
use vstd::string::StrSliceExecFns;
use crate::text::string_from_chars;
use crate::token::{Tok, Token};
use crate::tokens::Tokens;

verus! {

/// The grapheme clusters of a text, in order.
pub uninterp spec fn graphemes_of(s: Seq<char>) -> Seq<Seq<char>>;

/// Relies on `UnicodeSegmentation::graphemes` (extended clusters): consecutive,
/// non-empty slices of the text that together make it up.
#[verifier::external_body]
fn split_graphemes(s: &str) -> (r: Vec<Vec<char>>)
    ensures
        r@.map_values(|g: Vec<char>| g@) == graphemes_of(s@),
        r@.map_values(|g: Vec<char>| g@).flatten() == s@,
        forall|i: int| 0 <= i < r@.len() ==> #[trigger] r@[i]@.len() > 0,
{
    s.graphemes(true).map(|g| g.chars().collect()).collect()
}

/// The one-character grapheme `c`.
pub open spec fn single(g: Seq<char>, c: char) -> bool {
    g.len() == 1 && g[0] == c
}

/// Graphemes that end a word.
pub open spec fn is_sep(g: Seq<char>) -> bool {
    g.len() == 1 && {
        let c = g[0];
        c == ';' || c == ' ' || c == '=' || c == '\n' || c == '+' || c == '*' || c == '-'
            || c == '/' || c == '(' || c == ')' || c == '{' || c == '}' || c == '[' || c == ']'
            || c == '<' || c == '>' || c == '"' || c == ',' || c == '&'
    }
}

/// The token that a separator stands for on its own, if any.
pub open spec fn sep_token(g: Seq<char>) -> Option<Tok> {
    if single(g, '\n') { Some(Tok::EndLine) }
    else if single(g, ';') { Some(Tok::EndStatement) }
    else if single(g, '=') { Some(Tok::Equals) }
    else if single(g, '+') { Some(Tok::Plus) }
    else if single(g, '*') { Some(Tok::Star) }
    else if single(g, '-') { Some(Tok::Minus) }
    else if single(g, '/') { Some(Tok::Slash) }
    else if single(g, '(') { Some(Tok::OpenBracket) }
    else if single(g, ')') { Some(Tok::ClosedBracket) }
    else if single(g, '{') { Some(Tok::OpenCurly) }
    else if single(g, '}') { Some(Tok::ClosedCurly) }
    else if single(g, '[') { Some(Tok::OpenSquare) }
    else if single(g, ']') { Some(Tok::ClosedSquare) }
    else if single(g, '<') { Some(Tok::LessThan) }
    else if single(g, '>') { Some(Tok::GreaterThan) }
    else if single(g, ',') { Some(Tok::Comma) }
    else if single(g, '&') { Some(Tok::And) }
    else { None }
}

pub open spec fn is_digit(c: char) -> bool {
    '0' <= c && c <= '9'
}

/// The number written by a string of decimal digits.
pub open spec fn digits_value(s: Seq<char>) -> int
    decreases s.len(),
{
    if s.len() == 0 {
        0
    } else {
        digits_value(s.drop_last()) * 10 + ((s.last() as u32) as int - ('0' as u32) as int)
    }
}

/// Every character is a decimal digit.
pub open spec fn all_digits(s: Seq<char>) -> bool {
    forall|i: int| 0 <= i < s.len() ==> is_digit(#[trigger] s[i])
}

/// Whether the text starts with a sign.
pub open spec fn has_sign(s: Seq<char>) -> bool {
    s.len() > 0 && (s[0] == '-' || s[0] == '+')
}

/// The text after its sign, if any.
pub open spec fn unsigned_part(s: Seq<char>) -> Seq<char> {
    if has_sign(s) { s.skip(1) } else { s }
}

/// The value written, its sign applied.
pub open spec fn signed_value(s: Seq<char>) -> int {
    if s.len() > 0 && s[0] == '-' {
        -digits_value(unsigned_part(s))
    } else {
        digits_value(unsigned_part(s))
    }
}

/// What `str::parse::<i32>` gives: an optional sign, then one or more decimal
/// digits, whose value must fit in an `i32`.
pub open spec fn i32_of(s: Seq<char>) -> Option<i32> {
    if unsigned_part(s).len() > 0 && all_digits(unsigned_part(s))
        && i32::MIN <= signed_value(s) <= i32::MAX {
        Some(signed_value(s) as i32)
    } else {
        None
    }
}

/// The token for a word: a keyword, a boolean, an integer, or else an identifier.
pub open spec fn word_token(w: Seq<char>) -> Tok {
    if w == "return"@ { Tok::Return }
    else if w == "let"@ { Tok::Declaration }
    else if w == "if"@ { Tok::If }
    else if w == "true"@ { Tok::Int(1) }
    else if w == "false"@ { Tok::Int(0) }
    else if w == "while"@ { Tok::While }
    else if w == "break"@ { Tok::Break }
    else if w == "print"@ { Tok::Print }
    else if w == "read"@ { Tok::Read }
    else if w == "fn"@ { Tok::Function }
    else {
        match i32_of(w) {
            Some(v) => Tok::Int(v),
            None => Tok::Identifier(w),
        }
    }
}

/// The text of `gs[a..b]`.
pub open spec fn run(gs: Seq<Seq<char>>, a: int, b: int) -> Seq<char> {
    gs.subrange(a, b).flatten()
}

/// The token for a pending word, or nothing if it is empty.
pub open spec fn close_word(w: Seq<char>) -> Seq<Tok> {
    if w.len() == 0 { seq![] } else { seq![word_token(w)] }
}

/// The first quote at or after `i` (`gs.len()` if there is none).
pub open spec fn find_quote(gs: Seq<Seq<char>>, i: int) -> int
    decreases gs.len() - i,
{
    if i >= gs.len() || i < 0 {
        gs.len() as int
    } else if single(gs[i], '"') {
        i
    } else {
        find_quote(gs, i + 1)
    }
}

pub proof fn lemma_find_quote_bounds(gs: Seq<Seq<char>>, i: int)
    requires
        0 <= i,
    ensures
        i <= find_quote(gs, i) || find_quote(gs, i) == gs.len(),
        find_quote(gs, i) <= gs.len(),
    decreases gs.len() - i,
{
    if i < gs.len() && !single(gs[i], '"') {
        lemma_find_quote_bounds(gs, i + 1);
    }
}

#[via_fn]
proof fn lex_from_decreases(gs: Seq<Seq<char>>, a: int, i: int) {
    if 0 <= i < gs.len() {
        lemma_find_quote_bounds(gs, i + 1);
    }
}

/// `acc` followed by the tokens of `rest`, if `rest` lexed.
pub open spec fn prepend(acc: Seq<Tok>, rest: Option<Seq<Tok>>) -> Option<Seq<Tok>> {
    match rest {
        Some(r) => Some(acc + r),
        None => None,
    }
}

/// The tokens of `gs[i..]`, given that a word began at `a`; `None` when a
/// string literal is not closed.
pub open spec fn lex_from(gs: Seq<Seq<char>>, a: int, i: int) -> Option<Seq<Tok>>
    decreases gs.len() - i,
    via lex_from_decreases
{
    if i >= gs.len() || i < 0 || a < 0 || a > i {
        if 0 <= a <= i == gs.len() { Some(close_word(run(gs, a, i))) } else { None }
    } else if single(gs[i], '"') {
        let j = find_quote(gs, i + 1);
        if j >= gs.len() {
            None
        } else {
            prepend(
                close_word(run(gs, a, i)) + seq![Tok::String(run(gs, i + 1, j))],
                lex_from(gs, j + 1, j + 1),
            )
        }
    } else if is_sep(gs[i]) {
        let own = match sep_token(gs[i]) {
            Some(t) => seq![t],
            None => seq![],
        };
        prepend(close_word(run(gs, a, i)) + own, lex_from(gs, i + 1, i + 1))
    } else {
        lex_from(gs, a, i + 1)
    }
}

/// The tokens of a text given as grapheme clusters; `None` when a string
/// literal is not closed.
pub open spec fn lex(gs: Seq<Seq<char>>) -> Option<Seq<Tok>> {
    lex_from(gs, 0, 0)
}

/// The views of a vector of grapheme clusters.
pub open spec fn gviews(gs: Seq<Vec<char>>) -> Seq<Seq<char>> {
    gs.map_values(|g: Vec<char>| g@)
}

/// The views of a vector of tokens.
pub open spec fn tviews(ts: Seq<Token>) -> Seq<Tok> {
    ts.map_values(|t: Token| t@)
}

/// Whether the one-character grapheme is `c`.
fn is_char(g: &Vec<char>, c: char) -> (r: bool)
    ensures
        r == single(g@, c),
{
    g.len() == 1 && g[0] == c
}

/// Whether `w` spells `lit`.
fn spells(w: &Vec<char>, lit: &str) -> (r: bool)
    ensures
        r == (w@ == lit@),
{
    if w.len() != lit.unicode_len() {
        return false;
    }
    let mut i: usize = 0;
    while i < w.len()
        invariant
            w@.len() == lit@.len(),
            i <= w.len(),
            forall|j: int| 0 <= j < i ==> w@[j] == lit@[j],
        decreases w.len() - i,
    {
        if w[i] != lit.get_char(i) {
            return false;
        }
        i = i + 1;
    }
    assert(w@ =~= lit@);
    true
}

/// Whether a grapheme ends a word.
pub fn is_separator(g: &Vec<char>) -> (r: bool)
    ensures
        r == is_sep(g@),
{
    if g.len() != 1 {
        return false;
    }
    let c = g[0];
    c == ';' || c == ' ' || c == '=' || c == '\n' || c == '+' || c == '*' || c == '-' || c == '/'
        || c == '(' || c == ')' || c == '{' || c == '}' || c == '[' || c == ']' || c == '<'
        || c == '>' || c == '"' || c == ',' || c == '&'
}

/// The token that a separator grapheme stands for on its own, if any.
pub fn tokenize_separator(g: &Vec<char>) -> (r: Option<Token>)
    ensures
        match sep_token(g@) {
            Some(t) => r matches Some(u) && u@ == t,
            None => r is None,
        },
{
    if is_char(g, '\n') { Some(Token::EndLine) }
    else if is_char(g, ';') { Some(Token::EndStatement) }
    else if is_char(g, '=') { Some(Token::Equals) }
    else if is_char(g, '+') { Some(Token::Plus) }
    else if is_char(g, '*') { Some(Token::Star) }
    else if is_char(g, '-') { Some(Token::Minus) }
    else if is_char(g, '/') { Some(Token::Slash) }
    else if is_char(g, '(') { Some(Token::OpenBracket) }
    else if is_char(g, ')') { Some(Token::ClosedBracket) }
    else if is_char(g, '{') { Some(Token::OpenCurly) }
    else if is_char(g, '}') { Some(Token::ClosedCurly) }
    else if is_char(g, '[') { Some(Token::OpenSquare) }
    else if is_char(g, ']') { Some(Token::ClosedSquare) }
    else if is_char(g, '<') { Some(Token::LessThan) }
    else if is_char(g, '>') { Some(Token::GreaterThan) }
    else if is_char(g, ',') { Some(Token::Comma) }
    else if is_char(g, '&') { Some(Token::And) }
    else { None }
}

proof fn lemma_digits_value_grows(s: Seq<char>, k: int)
    requires
        0 <= k <= s.len(),
        all_digits(s),
    ensures
        digits_value(s.subrange(0, k)) <= digits_value(s),
        digits_value(s) >= 0,
    decreases s.len(),
{
    if s.len() > 0 {
        let t = s.drop_last();
        assert forall|i: int| 0 <= i < t.len() implies is_digit(#[trigger] t[i]) by {
            assert(t[i] == s[i]);
        }
        assert(all_digits(t));
        if k == s.len() {
            assert(s.subrange(0, k) =~= s);
            lemma_digits_value_grows(t, 0);
        } else {
            assert(t.subrange(0, k) =~= s.subrange(0, k));
            lemma_digits_value_grows(t, k);
        }
    } else {
        assert(s.subrange(0, k) =~= s);
    }
}

/// `str::parse::<i32>`, written out: an optional sign and decimal digits.
pub fn parse_i32(s: &Vec<char>) -> (r: Option<i32>)
    ensures
        r == i32_of(s@),
{
    let start: usize = if s.len() > 0 && (s[0] == '-' || s[0] == '+') { 1 } else { 0 };
    let negative = s.len() > 0 && s[0] == '-';
    let ghost body = unsigned_part(s@);
    assert(body =~= s@.subrange(start as int, s@.len() as int));
    if start >= s.len() {
        return None;
    }
    let limit: i64 = if negative { 2147483648 } else { 2147483647 };
    let mut value: i64 = 0;
    let mut i: usize = start;
    while i < s.len()
        invariant
            start <= i <= s.len(),
            body == unsigned_part(s@),
            negative == (s@.len() > 0 && s@[0] == '-'),
            negative ==> limit == 2147483648,
            !negative ==> limit == 2147483647,
            body =~= s@.subrange(start as int, s@.len() as int),
            0 <= value <= limit,
            limit == 2147483647 || limit == 2147483648,
            value == digits_value(body.subrange(0, i - start)),
            forall|j: int| 0 <= j < i - start ==> is_digit(#[trigger] body[j]),
        decreases s.len() - i,
    {
        let c = s[i];
        if !('0' <= c && c <= '9') {
            assert(body[i - start] == c);
            assert(!is_digit(body[i - start]));
            assert(!all_digits(body));
            return None;
        }
        let d = (c as u32 - '0' as u32) as i64;
        proof {
            let p = body.subrange(0, i + 1 - start);
            assert(p.drop_last() =~= body.subrange(0, i - start));
            assert(p.last() == c);
        }
        if value > (limit - d) / 10 {
            proof {
                let p = body.subrange(0, i + 1 - start);
                assert(digits_value(p) > limit) by (nonlinear_arith)
                    requires
                        digits_value(p) == value * 10 + d,
                        value > (limit - d) / 10,
                        0 <= d <= 9,
                        limit > 0,
                ;
                assert forall|j: int| 0 <= j < p.len() implies is_digit(#[trigger] p[j]) by {
                    assert(p[j] == body[j]);
                }
                if all_digits(body) {
                    lemma_digits_value_grows(body, i + 1 - start);
                    assert(digits_value(body) > limit);
                }
            }
            return None;
        }
        value = value * 10 + d;
        i = i + 1;
    }
    assert(body.subrange(0, body.len() as int) =~= body);
    if negative {
        Some((-value) as i32)
    } else {
        Some(value as i32)
    }
}

/// The token for a word that is no keyword: an integer or an identifier.
pub fn str_to_token(w: &Vec<char>) -> (r: Token)
    ensures
        r@ == (match i32_of(w@) {
            Some(v) => Tok::Int(v),
            None => Tok::Identifier(w@),
        }),
{
    match parse_i32(w) {
        Some(v) => Token::Int(v),
        None => Token::Identifier(string_from_chars(w)),
    }
}

/// The token for a word: a keyword, a boolean, an integer, or an identifier.
pub fn tokenize_word(w: &Vec<char>) -> (r: Token)
    ensures
        r@ == word_token(w@),
{
    proof {
        reveal_strlit("return");
        reveal_strlit("let");
        reveal_strlit("if");
        reveal_strlit("true");
        reveal_strlit("false");
        reveal_strlit("while");
        reveal_strlit("break");
        reveal_strlit("print");
        reveal_strlit("read");
        reveal_strlit("fn");
    }
    if spells(w, "return") { Token::Return }
    else if spells(w, "let") { Token::Declaration }
    else if spells(w, "if") { Token::If }
    else if spells(w, "true") { Token::Int(1) }
    else if spells(w, "false") { Token::Int(0) }
    else if spells(w, "while") { Token::While }
    else if spells(w, "break") { Token::Break }
    else if spells(w, "print") { Token::Print }
    else if spells(w, "read") { Token::Read }
    else if spells(w, "fn") { Token::Function }
    else { str_to_token(w) }
}

pub proof fn lemma_run_push(gs: Seq<Seq<char>>, a: int, k: int)
    requires
        0 <= a <= k < gs.len(),
    ensures
        run(gs, a, k + 1) == run(gs, a, k) + gs[k],
{
    assert(gs.subrange(a, k + 1) =~= gs.subrange(a, k).push(gs[k]));
    gs.subrange(a, k).lemma_flatten_push(gs[k]);
}

proof fn lemma_prepend_assoc(acc: Seq<Tok>, x: Seq<Tok>, rest: Option<Seq<Tok>>)
    ensures
        prepend(acc, prepend(x, rest)) == prepend(acc + x, rest),
{
    if let Some(r) = rest {
        assert(acc + (x + r) =~= (acc + x) + r);
    }
}

/// The text of `gs[a..b]` as one character vector.
fn collect_run(gs: &Vec<Vec<char>>, a: usize, b: usize) -> (r: Vec<char>)
    requires
        a <= b <= gs@.len(),
    ensures
        r@ == run(gviews(gs@), a as int, b as int),
{
    let ghost g = gviews(gs@);
    let mut out: Vec<char> = Vec::new();
    let mut k: usize = a;
    assert(g.subrange(a as int, a as int) =~= Seq::<Seq<char>>::empty());
    while k < b
        invariant
            a <= k <= b <= gs@.len(),
            g == gviews(gs@),
            out@ == run(g, a as int, k as int),
        decreases b - k,
    {
        let piece = &gs[k];
        let mut m: usize = 0;
        let ghost before = out@;
        while m < piece.len()
            invariant
                m <= piece@.len(),
                out@ == before + piece@.subrange(0, m as int),
            decreases piece@.len() - m,
        {
            out.push(piece[m]);
            m = m + 1;
            assert(out@ =~= before + piece@.subrange(0, m as int));
        }
        proof {
            assert(piece@.subrange(0, m as int) =~= piece@);
            assert(g[k as int] == piece@);
            lemma_run_push(g, a as int, k as int);
        }
        k = k + 1;
    }
    out
}

/// Emits the token of the word `gs[a..i]`, if it is not empty.
fn push_word(tokens: &mut Vec<Token>, gs: &Vec<Vec<char>>, a: usize, i: usize)
    requires
        a <= i <= gs@.len(),
    ensures
        tviews(final(tokens)@) == tviews(old(tokens)@) + close_word(run(gviews(gs@), a as int, i as int)),
{
    let w = collect_run(gs, a, i);
    if w.len() > 0 {
        let t = tokenize_word(&w);
        tokens.push(t);
        assert(tviews(tokens@) =~= tviews(old(tokens)@) + close_word(run(gviews(gs@), a as int, i as int)));
    } else {
        assert(tviews(tokens@) =~= tviews(old(tokens)@) + close_word(run(gviews(gs@), a as int, i as int)));
    }
}

/// Lexes a text given as its grapheme clusters: words end at separators, a
/// separator may stand for a token of its own, and a quote opens a string
/// literal that runs to the next quote.
pub fn tokenize_graphemes(gs: &Vec<Vec<char>>) -> (r: Result<Vec<Token>, CompilationError>)
    ensures
        match lex(gviews(gs@)) {
            Some(ts) => r matches Ok(v) && tviews(v@) == ts,
            None => r matches Err(e) && e.message@ == "unmatched \""@ && e.line_num is None,
        },
{
    let ghost g = gviews(gs@);
    let mut tokens: Vec<Token> = Vec::new();
    let mut a: usize = 0;
    let mut i: usize = 0;
    assert(tviews(tokens@) =~= Seq::<Tok>::empty());
    assert(prepend(Seq::<Tok>::empty(), lex(g)) == lex(g)) by {
        if let Some(x) = lex(g) {
            assert(Seq::<Tok>::empty() + x =~= x);
        }
    }
    while i < gs.len()
        invariant
            a <= i <= gs@.len(),
            g == gviews(gs@),
            lex(g) == prepend(tviews(tokens@), lex_from(g, a as int, i as int)),
        decreases gs@.len() - i,
    {
        assert(g[i as int] == gs@[i as int]@);
        if is_char(&gs[i], '"') {
            let mut j: usize = i + 1;
            while j < gs.len() && !is_char(&gs[j], '"')
                invariant
                    i + 1 <= j <= gs@.len(),
                    g == gviews(gs@),
                    find_quote(g, i + 1) == find_quote(g, j as int),
                decreases gs@.len() - j,
            {
                assert(g[j as int] == gs@[j as int]@);
                j = j + 1;
            }
            if j >= gs.len() {
                return Err(CompilationError::new("unmatched \""));
            }
            assert(g[j as int] == gs@[j as int]@);
            assert(find_quote(g, j as int) == j);
            let ghost before = tviews(tokens@);
            push_word(&mut tokens, gs, a, i);
            let ghost mid = tviews(tokens@);
            let body = collect_run(gs, i + 1, j);
            let st = Token::String(string_from_chars(&body));
            assert(st@ == Tok::String(run(g, i + 1, j as int)));
            tokens.push(st);
            assert(tviews(tokens@) =~= mid.push(st@));
            proof {
                let acc = close_word(run(g, a as int, i as int)) + seq![Tok::String(run(g, i + 1, j as int))];
                assert(tviews(tokens@) =~= before + acc);
                lemma_prepend_assoc(before, acc, lex_from(g, j + 1, j + 1));
            }
            i = j + 1;
            a = i;
        } else if is_separator(&gs[i]) {
            let ghost before = tviews(tokens@);
            push_word(&mut tokens, gs, a, i);
            let ghost mid = tviews(tokens@);
            let ghost own = match sep_token(g[i as int]) {
                Some(t) => seq![t],
                None => Seq::<Tok>::empty(),
            };
            match tokenize_separator(&gs[i]) {
                Some(t) => {
                    tokens.push(t);
                    assert(tviews(tokens@) =~= mid.push(t@));
                    assert(own == seq![t@]);
                    assert(tviews(tokens@) =~= mid + own);
                },
                None => {
                    assert(tviews(tokens@) =~= mid + own);
                },
            }
            proof {
                let acc = close_word(run(g, a as int, i as int)) + own;
                assert(tviews(tokens@) =~= before + acc);
                lemma_prepend_assoc(before, acc, lex_from(g, i + 1, i + 1));
            }
            i = i + 1;
            a = i;
        } else {
            i = i + 1;
        }
    }
    let ghost before = tviews(tokens@);
    push_word(&mut tokens, gs, a, i);
    proof {
        assert(before + close_word(run(g, a as int, i as int)) == tviews(tokens@));
    }
    Ok(tokens)
}

/// Lexes a source text into a token stream positioned at its start.
pub fn tokenize(file: &String) -> (r: Result<Tokens, CompilationError>)
    ensures
        match lex(graphemes_of(file@)) {
            Some(ts) => r matches Ok(t) && t.wf() && t.toks() == ts && t.cursor() == 0,
            None => r matches Err(e) && e.message@ == "unmatched \""@ && e.line_num is None,
        },
{
    let gs = split_graphemes(file.as_str());
    match tokenize_graphemes(&gs) {
        Ok(v) => {
            let t = Tokens::new(v);
            Ok(t)
        },
        Err(e) => Err(e),
    }
}

} // verus!
