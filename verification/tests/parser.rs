use calculator::ast::{BinOperator, Node, UnaryOperator};
use calculator::error::Error;
use calculator::lexer::Lexer;
use calculator::parser::Parser;
use calculator::token::{Operator, Span, Token};

fn parse(text: &str) -> Result<Node, Error> {
    assert!(Lexer::new(text).well_formed());
    Parser::new(text).parse()
}

fn number(start: usize, end: usize) -> Node {
    Node::Number(Span { start, end })
}

fn binary(left: Node, operator: Operator, right: Node) -> Node {
    Node::BinOperator(Box::new(BinOperator { left, operator, right }))
}

fn unary(operator: Operator, expression: Node) -> Node {
    Node::UnaryOperator(Box::new(UnaryOperator { operator, expression }))
}

#[test]
fn single_number() {
    assert_eq!(parse("42"), Ok(number(0, 2)));
}

#[test]
fn multiplication_binds_tighter_than_addition() {
    assert_eq!(
        parse("2 + 3 * 4"),
        Ok(binary(number(0, 1), Operator::Plus, binary(number(4, 5), Operator::Mul, number(8, 9))))
    );
    assert_eq!(
        parse("2 * 3 + 4"),
        Ok(binary(binary(number(0, 1), Operator::Mul, number(4, 5)), Operator::Plus, number(8, 9)))
    );
}

#[test]
fn power_binds_tighter_than_multiplication() {
    assert_eq!(
        parse("2*3**4"),
        Ok(binary(number(0, 1), Operator::Mul, binary(number(2, 3), Operator::Exponent, number(5, 6))))
    );
}

#[test]
fn chains_group_to_the_left() {
    assert_eq!(
        parse("1-2+3"),
        Ok(binary(binary(number(0, 1), Operator::Minus, number(2, 3)), Operator::Plus, number(4, 5)))
    );
    assert_eq!(
        parse("8/4%3*2"),
        Ok(binary(
            binary(binary(number(0, 1), Operator::Div, number(2, 3)), Operator::Modulus, number(4, 5)),
            Operator::Mul,
            number(6, 7)
        ))
    );
}

#[test]
fn power_groups_to_the_left() {
    assert_eq!(
        parse("2 ** 3 ** 2"),
        Ok(binary(
            binary(number(0, 1), Operator::Exponent, number(5, 6)),
            Operator::Exponent,
            number(10, 11)
        ))
    );
}

#[test]
fn parentheses_group() {
    assert_eq!(
        parse("(1+2) * 3"),
        Ok(binary(binary(number(1, 2), Operator::Plus, number(3, 4)), Operator::Mul, number(8, 9)))
    );
    assert_eq!(parse("((7))"), Ok(number(2, 3)));
}

#[test]
fn signs_chain() {
    assert_eq!(parse("--5"), Ok(unary(Operator::Minus, unary(Operator::Minus, number(2, 3)))));
    assert_eq!(parse("+-5"), Ok(unary(Operator::Plus, unary(Operator::Minus, number(2, 3)))));
    assert_eq!(
        parse("-(3+4)"),
        Ok(unary(Operator::Minus, binary(number(2, 3), Operator::Plus, number(4, 5))))
    );
}

#[test]
fn sign_binds_tighter_than_power() {
    assert_eq!(
        parse("-2**2"),
        Ok(binary(unary(Operator::Minus, number(1, 2)), Operator::Exponent, number(4, 5)))
    );
    assert_eq!(
        parse("2**-2"),
        Ok(binary(number(0, 1), Operator::Exponent, unary(Operator::Minus, number(4, 5))))
    );
}

#[test]
fn binary_minus_then_sign() {
    assert_eq!(
        parse("1 - -2"),
        Ok(binary(number(0, 1), Operator::Minus, unary(Operator::Minus, number(5, 6))))
    );
}

#[test]
fn empty_line_expects_a_number() {
    assert_eq!(parse(""), Err(Error::ExpectedNumber(Token::EndOfFile)));
    assert_eq!(parse("   "), Err(Error::ExpectedNumber(Token::EndOfFile)));
}

#[test]
fn term_expected() {
    assert_eq!(parse("*2"), Err(Error::ExpectedNumber(Token::Operator(Operator::Mul))));
    assert_eq!(parse("2 + )"), Err(Error::ExpectedNumber(Token::RParen)));
    assert_eq!(parse("2 +"), Err(Error::ExpectedNumber(Token::EndOfFile)));
    assert_eq!(parse("()"), Err(Error::ExpectedNumber(Token::RParen)));
    assert_eq!(parse("2 ** / 3"), Err(Error::ExpectedNumber(Token::Operator(Operator::Div))));
    assert_eq!(parse("-"), Err(Error::ExpectedNumber(Token::EndOfFile)));
}

#[test]
fn closing_parenthesis_expected() {
    assert_eq!(parse("(1+2"), Err(Error::ExpectedClosingParen(Token::EndOfFile)));
    assert_eq!(
        parse("(1 2)"),
        Err(Error::ExpectedClosingParen(Token::Number(Span { start: 3, end: 4 })))
    );
    assert_eq!(parse("((1)"), Err(Error::ExpectedClosingParen(Token::EndOfFile)));
    assert_eq!(parse("(1 ("), Err(Error::ExpectedClosingParen(Token::LParen)));
}

#[test]
fn end_of_file_expected() {
    assert_eq!(
        parse("2 & 3"),
        Err(Error::ExpectedEndOfFile(Token::Number(Span { start: 4, end: 5 })))
    );
    assert_eq!(parse("1)"), Err(Error::ExpectedEndOfFile(Token::RParen)));
    assert_eq!(parse("(1)("), Err(Error::ExpectedEndOfFile(Token::LParen)));
}

#[test]
fn first_error_wins() {
    assert_eq!(parse("(1+) 2"), Err(Error::ExpectedNumber(Token::RParen)));
    assert_eq!(parse("(* 2"), Err(Error::ExpectedNumber(Token::Operator(Operator::Mul))));
    assert_eq!(parse("2 + ) 3"), Err(Error::ExpectedNumber(Token::RParen)));
}

#[test]
fn end_of_file_is_left_in_place() {
    let mut parser = Parser::new("7");
    assert_eq!(parser.parse(), Ok(number(0, 1)));
    assert_eq!(parser.parse(), Err(Error::ExpectedNumber(Token::EndOfFile)));
    assert_eq!(parser.parse(), Err(Error::ExpectedNumber(Token::Unknown)));
}
