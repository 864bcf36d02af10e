use calculator::lexer::Lexer;
use calculator::token::{is_addsub, is_exponent, is_muldivmod, Operator, Span, Token};

/// The tokens of `text`, and the number that each literal among them denotes.
fn lex(text: &str) -> (Vec<Token>, Vec<f64>) {
    let mut lexer = Lexer::new(text);
    assert!(lexer.well_formed());
    let tokens: Vec<Token> = lexer.lex().iter().copied().collect();
    let mut numbers = Vec::new();
    for token in &tokens {
        if let Token::Number(span) = token {
            let literal: String = text.chars().skip(span.start).take(span.end - span.start).collect();
            numbers.push(literal.parse::<f64>().unwrap());
        }
    }
    (tokens, numbers)
}

fn number(start: usize, end: usize) -> Token {
    Token::Number(Span { start, end })
}

#[test]
fn should_lex_addsub() {
    let (tokens, numbers) = lex("9.10 + 2 - 10");
    assert_eq!(
        tokens,
        [
            number(0, 4),
            Token::Operator(Operator::Plus),
            number(7, 8),
            Token::Operator(Operator::Minus),
            number(11, 13),
            Token::EndOfFile,
        ]
    );
    assert_eq!(numbers, [9.1, 2.0, 10.0]);
}

#[test]
fn should_lex_muldivmod() {
    let (tokens, numbers) = lex("5 * 40 % 10 / 10");
    assert_eq!(
        tokens,
        [
            number(0, 1),
            Token::Operator(Operator::Mul),
            number(4, 6),
            Token::Operator(Operator::Modulus),
            number(9, 11),
            Token::Operator(Operator::Div),
            number(14, 16),
            Token::EndOfFile,
        ]
    );
    assert_eq!(numbers, [5.0, 40.0, 10.0, 10.0]);
}

#[test]
fn should_lex_paren() {
    let (tokens, numbers) = lex("5 * (2 + 5)");
    assert_eq!(
        tokens,
        [
            number(0, 1),
            Token::Operator(Operator::Mul),
            Token::LParen,
            number(5, 6),
            Token::Operator(Operator::Plus),
            number(9, 10),
            Token::RParen,
            Token::EndOfFile,
        ]
    );
    assert_eq!(numbers, [5.0, 2.0, 5.0]);
}

#[test]
fn should_lex_exponent() {
    let (tokens, numbers) = lex("5 ** (2 + 5)");
    assert_eq!(
        tokens,
        [
            number(0, 1),
            Token::Operator(Operator::Exponent),
            Token::LParen,
            number(6, 7),
            Token::Operator(Operator::Plus),
            number(10, 11),
            Token::RParen,
            Token::EndOfFile,
        ]
    );
    assert_eq!(numbers, [5.0, 2.0, 5.0]);
}

#[test]
fn empty_line_is_one_end_of_file() {
    assert_eq!(lex("").0, [Token::EndOfFile]);
    assert_eq!(lex("   \t ").0, [Token::EndOfFile]);
}

#[test]
fn unrecognized_characters_leave_no_token() {
    let (tokens, numbers) = lex("2 & 3");
    assert_eq!(tokens, [number(0, 1), number(4, 5), Token::EndOfFile]);
    assert_eq!(numbers, [2.0, 3.0]);
    assert_eq!(lex("abc _ # é").0, [Token::EndOfFile]);
}

#[test]
fn characters_are_counted_not_bytes() {
    let (tokens, numbers) = lex("é 7");
    assert_eq!(tokens, [number(2, 3), Token::EndOfFile]);
    assert_eq!(numbers, [7.0]);
}

#[test]
fn margins_yield_no_token() {
    let (tokens, numbers) = lex("  \t 12 \n");
    assert_eq!(tokens, [number(4, 6), Token::EndOfFile]);
    assert_eq!(numbers, [12.0]);
}

#[test]
fn star_pairs_from_the_left() {
    let star = Token::Operator(Operator::Mul);
    let power = Token::Operator(Operator::Exponent);
    assert_eq!(lex("*").0, [star, Token::EndOfFile]);
    assert_eq!(lex("**").0, [power, Token::EndOfFile]);
    assert_eq!(lex("***").0, [power, star, Token::EndOfFile]);
    assert_eq!(lex("****").0, [power, power, Token::EndOfFile]);
    assert_eq!(lex("* *").0, [star, star, Token::EndOfFile]);
}

#[test]
fn single_character_tokens() {
    assert_eq!(
        lex("+-/%()").0,
        [
            Token::Operator(Operator::Plus),
            Token::Operator(Operator::Minus),
            Token::Operator(Operator::Div),
            Token::Operator(Operator::Modulus),
            Token::LParen,
            Token::RParen,
            Token::EndOfFile,
        ]
    );
}

#[test]
fn literal_runs_over_digits_and_points() {
    let (tokens, numbers) = lex("12.5+3.");
    assert_eq!(
        tokens,
        [number(0, 4), Token::Operator(Operator::Plus), number(5, 7), Token::EndOfFile]
    );
    assert_eq!(numbers, [12.5, 3.0]);
}

#[test]
fn point_before_a_digit_is_dropped() {
    let (tokens, numbers) = lex(".5");
    assert_eq!(tokens, [number(1, 2), Token::EndOfFile]);
    assert_eq!(numbers, [5.0]);
    assert_eq!(lex(". .. .").0, [Token::EndOfFile]);
}

#[test]
fn two_points_are_no_number() {
    assert!(!Lexer::new("1.2.3").well_formed());
    assert!(!Lexer::new("2 + 1..5").well_formed());
    assert!(!Lexer::new("(7..)").well_formed());
    assert!(!Lexer::new("..5.6.").well_formed());
    assert!(Lexer::new("1.2 .3").well_formed());
    assert!(Lexer::new("1.2+3.4").well_formed());
    assert!(Lexer::new("..5.6").well_formed());
    assert!(Lexer::new("").well_formed());
}

#[test]
fn well_formedness_is_of_what_is_left() {
    let mut lexer = Lexer::new("1.5 * 2");
    assert!(lexer.well_formed());
    lexer.lex();
    assert!(lexer.well_formed());
}

#[test]
fn next_takes_and_peek_leaves() {
    let mut lexer = Lexer::new("1+");
    lexer.lex();
    assert_eq!(lexer.peek(), number(0, 1));
    assert_eq!(lexer.peek(), number(0, 1));
    assert_eq!(lexer.next(), number(0, 1));
    assert_eq!(lexer.peek(), Token::Operator(Operator::Plus));
    assert_eq!(lexer.next(), Token::Operator(Operator::Plus));
    assert_eq!(lexer.next(), Token::EndOfFile);
}

#[test]
fn exhausted_lexer_hands_out_unknown() {
    let mut lexer = Lexer::new("1");
    assert_eq!(lexer.peek(), Token::Unknown);
    assert_eq!(lexer.next(), Token::Unknown);
    lexer.lex();
    assert_eq!(lexer.next(), number(0, 1));
    assert_eq!(lexer.next(), Token::EndOfFile);
    assert_eq!(lexer.peek(), Token::Unknown);
    assert_eq!(lexer.next(), Token::Unknown);
    assert_eq!(lexer.next(), Token::Unknown);
}

#[test]
fn second_scan_adds_one_end_of_file() {
    let mut lexer = Lexer::new("4");
    lexer.lex();
    let tokens: Vec<Token> = lexer.lex().iter().copied().collect();
    assert_eq!(tokens, [number(0, 1), Token::EndOfFile, Token::EndOfFile]);
}

#[test]
fn token_classes() {
    let all = [
        Token::Number(Span { start: 0, end: 1 }),
        Token::Operator(Operator::Plus),
        Token::Operator(Operator::Minus),
        Token::Operator(Operator::Mul),
        Token::Operator(Operator::Div),
        Token::Operator(Operator::Modulus),
        Token::Operator(Operator::Exponent),
        Token::LParen,
        Token::RParen,
        Token::EndOfFile,
        Token::Unknown,
    ];
    let addsub: Vec<bool> = all.iter().map(|t| is_addsub(*t)).collect();
    let muldivmod: Vec<bool> = all.iter().map(|t| is_muldivmod(*t)).collect();
    let exponent: Vec<bool> = all.iter().map(|t| is_exponent(*t)).collect();
    assert_eq!(
        addsub,
        [false, true, true, false, false, false, false, false, false, false, false]
    );
    assert_eq!(
        muldivmod,
        [false, false, false, true, true, true, false, false, false, false, false]
    );
    assert_eq!(
        exponent,
        [false, false, false, false, false, false, true, false, false, false, false]
    );
}

#[test]
fn margins_move_places_only() {
    for core in ["1+2", "12.5 ** (3 - .4)", "7*", "", "a 1 b"] {
        for (left, right) in [("  ", ""), ("", " \t"), (" \t\n", "  "), ("xy", "z")] {
            let inner = lex(core).0;
            let outer = lex(&format!("{}{}{}", left, core, right)).0;
            let by = left.chars().count();
            let moved: Vec<Token> = inner
                .iter()
                .map(|token| match *token {
                    Token::Number(span) => number(span.start + by, span.end + by),
                    other => other,
                })
                .collect();
            assert_eq!(outer, moved);
        }
    }
}

#[test]
fn scan_yields_no_end_of_file_but_the_last() {
    for text in ["", "1", "(2+3)*4", "x ** y", "1.5 .2", "((", "9 9 9"] {
        let mut lexer = Lexer::new(text);
        let tokens: Vec<Token> = lexer.lex().iter().copied().collect();
        let (last, others) = tokens.split_last().unwrap();
        assert_eq!(*last, Token::EndOfFile);
        for token in others {
            assert!(*token != Token::EndOfFile && *token != Token::Unknown);
            if let Token::Number(span) = token {
                assert!(span.start < span.end && span.end <= text.chars().count());
                assert!(text.chars().nth(span.start).unwrap().is_ascii_digit());
            }
        }
    }
}
