use vstd::prelude::*;

verus! {

/// The place of a number literal in a line: the characters from `start` up to,
/// but not including, `end`, counted in characters from the start of the line.
#[derive(Debug, PartialEq, Eq, Structural, Clone, Copy)]
pub struct Span {
    pub start: usize,
    pub end: usize,
}

/// One unit of a line, as the tokenizer reads it.
#[derive(Debug, PartialEq, Eq, Structural, Clone, Copy)]
pub enum Token {
    /// A number literal, known by its place in the line.
    Number(Span),
    Operator(Operator),
    LParen,
    RParen,
    EndOfFile,
    /// What a lexer hands out once it has no token left.
    Unknown,
}

/// The six operators of the calculator.
#[derive(Debug, PartialEq, Eq, Structural, Clone, Copy)]
pub enum Operator {
    Plus,
    Minus,
    Mul,
    Div,
    Modulus,
    Exponent,
}

impl Operator {
    /// Whether the operator can stand as a sign in front of a term.
    pub open spec fn is_sign(self) -> bool {
        self == Operator::Plus || self == Operator::Minus
    }
}

/// Whether `token` is `+` or `-`.
pub fn is_addsub(token: Token) -> (r: bool)
    ensures
        r == (token == Token::Operator(Operator::Plus) || token == Token::Operator(
            Operator::Minus,
        )),
{
    token == Token::Operator(Operator::Plus) || token == Token::Operator(Operator::Minus)
}

/// Whether `token` is `*`, `/` or `%`.
pub fn is_muldivmod(token: Token) -> (r: bool)
    ensures
        r == (token == Token::Operator(Operator::Mul) || token == Token::Operator(Operator::Div)
            || token == Token::Operator(Operator::Modulus)),
{
    token == Token::Operator(Operator::Mul) || token == Token::Operator(Operator::Div) || token
        == Token::Operator(Operator::Modulus)
}

/// Whether `token` is `**`.
pub fn is_exponent(token: Token) -> (r: bool)
    ensures
        r == (token == Token::Operator(Operator::Exponent)),
{
    token == Token::Operator(Operator::Exponent)
}

} // verus!
