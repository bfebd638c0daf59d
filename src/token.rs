//! Tokens of the source language.
use vstd::prelude::*;

verus! {

/// One lexical unit of a program.
#[derive(Debug)]
pub enum Token {
    EndLine,
    Return,
    Int(i32),
    Identifier(String),
    EndStatement,
    Equals,
    Declaration,
    Plus,
    Star,
    Minus,
    Slash,
    OpenBracket,
    ClosedBracket,
    OpenCurly,
    ClosedCurly,
    OpenSquare,
    ClosedSquare,
    If,
    LessThan,
    GreaterThan,
    While,
    Break,
    Print,
    String(String),
    Function,
    Comma,
    And,
    Read,
}

/// A token with its text payloads as character sequences.
pub enum Tok {
    EndLine,
    Return,
    Int(i32),
    Identifier(Seq<char>),
    EndStatement,
    Equals,
    Declaration,
    Plus,
    Star,
    Minus,
    Slash,
    OpenBracket,
    ClosedBracket,
    OpenCurly,
    ClosedCurly,
    OpenSquare,
    ClosedSquare,
    If,
    LessThan,
    GreaterThan,
    While,
    Break,
    Print,
    String(Seq<char>),
    Function,
    Comma,
    And,
    Read,
}

impl View for Token {
    type V = Tok;

    open spec fn view(&self) -> Tok {
        match self {
            Token::EndLine => Tok::EndLine,
            Token::Return => Tok::Return,
            Token::Int(v) => Tok::Int(*v),
            Token::Identifier(s) => Tok::Identifier(s@),
            Token::EndStatement => Tok::EndStatement,
            Token::Equals => Tok::Equals,
            Token::Declaration => Tok::Declaration,
            Token::Plus => Tok::Plus,
            Token::Star => Tok::Star,
            Token::Minus => Tok::Minus,
            Token::Slash => Tok::Slash,
            Token::OpenBracket => Tok::OpenBracket,
            Token::ClosedBracket => Tok::ClosedBracket,
            Token::OpenCurly => Tok::OpenCurly,
            Token::ClosedCurly => Tok::ClosedCurly,
            Token::OpenSquare => Tok::OpenSquare,
            Token::ClosedSquare => Tok::ClosedSquare,
            Token::If => Tok::If,
            Token::LessThan => Tok::LessThan,
            Token::GreaterThan => Tok::GreaterThan,
            Token::While => Tok::While,
            Token::Break => Tok::Break,
            Token::Print => Tok::Print,
            Token::String(s) => Tok::String(s@),
            Token::Function => Tok::Function,
            Token::Comma => Tok::Comma,
            Token::And => Tok::And,
            Token::Read => Tok::Read,
        }
    }
}

/// How a binary operator binds: its precedence level, and whether a chain of
/// operators of that level groups to the left.
pub struct OperatorInfo(pub usize, pub bool);

/// Precedence and grouping of the binary operators; `None` for other tokens.
pub open spec fn operator_info(t: Tok) -> Option<(usize, bool)> {
    match t {
        Tok::GreaterThan | Tok::LessThan | Tok::Equals => Some((0, true)),
        Tok::Plus => Some((1, true)),
        Tok::Minus => Some((1, false)),
        Tok::Star => Some((2, true)),
        Tok::Slash => Some((2, false)),
        _ => None,
    }
}

/// The tokens that stand for a binary operator.
pub open spec fn is_operator(t: Tok) -> bool {
    operator_info(t) is Some
}

impl Token {
    /// Precedence and grouping of a binary operator token.
    pub fn get_operator_info(&self) -> (r: Option<OperatorInfo>)
        ensures
            match operator_info(self@) {
                Some((p, a)) => r matches Some(OperatorInfo(q, b)) && q == p && b == a,
                None => r is None,
            },
    {
        match self {
            Token::GreaterThan | Token::LessThan | Token::Equals => Some(OperatorInfo(0, true)),
            Token::Plus => Some(OperatorInfo(1, true)),
            Token::Minus => Some(OperatorInfo(1, false)),
            Token::Star => Some(OperatorInfo(2, true)),
            Token::Slash => Some(OperatorInfo(2, false)),
            _ => None,
        }
    }

    /// A copy of the token.
    pub fn duplicate(&self) -> (r: Token)
        ensures
            r@ == self@,
    {
        match self {
            Token::EndLine => Token::EndLine,
            Token::Return => Token::Return,
            Token::Int(v) => Token::Int(*v),
            Token::Identifier(s) => Token::Identifier(s.clone()),
            Token::EndStatement => Token::EndStatement,
            Token::Equals => Token::Equals,
            Token::Declaration => Token::Declaration,
            Token::Plus => Token::Plus,
            Token::Star => Token::Star,
            Token::Minus => Token::Minus,
            Token::Slash => Token::Slash,
            Token::OpenBracket => Token::OpenBracket,
            Token::ClosedBracket => Token::ClosedBracket,
            Token::OpenCurly => Token::OpenCurly,
            Token::ClosedCurly => Token::ClosedCurly,
            Token::OpenSquare => Token::OpenSquare,
            Token::ClosedSquare => Token::ClosedSquare,
            Token::If => Token::If,
            Token::LessThan => Token::LessThan,
            Token::GreaterThan => Token::GreaterThan,
            Token::While => Token::While,
            Token::Break => Token::Break,
            Token::Print => Token::Print,
            Token::String(s) => Token::String(s.clone()),
            Token::Function => Token::Function,
            Token::Comma => Token::Comma,
            Token::And => Token::And,
            Token::Read => Token::Read,
        }
    }
    /// Whether two tokens are the same.
    pub fn same(&self, other: &Token) -> (r: bool)
        ensures
            r == (self@ == other@),
    {
        match self {
            Token::EndLine => matches!(other, Token::EndLine),
            Token::Return => matches!(other, Token::Return),
            Token::EndStatement => matches!(other, Token::EndStatement),
            Token::Equals => matches!(other, Token::Equals),
            Token::Declaration => matches!(other, Token::Declaration),
            Token::Plus => matches!(other, Token::Plus),
            Token::Star => matches!(other, Token::Star),
            Token::Minus => matches!(other, Token::Minus),
            Token::Slash => matches!(other, Token::Slash),
            Token::OpenBracket => matches!(other, Token::OpenBracket),
            Token::ClosedBracket => matches!(other, Token::ClosedBracket),
            Token::OpenCurly => matches!(other, Token::OpenCurly),
            Token::ClosedCurly => matches!(other, Token::ClosedCurly),
            Token::OpenSquare => matches!(other, Token::OpenSquare),
            Token::ClosedSquare => matches!(other, Token::ClosedSquare),
            Token::If => matches!(other, Token::If),
            Token::LessThan => matches!(other, Token::LessThan),
            Token::GreaterThan => matches!(other, Token::GreaterThan),
            Token::While => matches!(other, Token::While),
            Token::Break => matches!(other, Token::Break),
            Token::Print => matches!(other, Token::Print),
            Token::Function => matches!(other, Token::Function),
            Token::Comma => matches!(other, Token::Comma),
            Token::And => matches!(other, Token::And),
            Token::Read => matches!(other, Token::Read),
            Token::Int(x) => match other {
                Token::Int(y) => *x == *y,
                _ => false,
            },
            Token::Identifier(x) => match other {
                Token::Identifier(y) => *x == *y,
                _ => false,
            },
            Token::String(x) => match other {
                Token::String(y) => *x == *y,
                _ => false,
            },
        }
    }
}

} // verus!
