use crate::ast::{BinOperator, Node, UnaryOperator};
use crate::error::Error;
use crate::lexer::{front, literals_well_formed, scan, Lexer};
use crate::token::{is_addsub, is_exponent, is_muldivmod, Operator, Token};
use vstd::prelude::*;

verus! {

/// What a rule of the grammar makes of the tokens it is given: a tree or the
/// first error, and how many of the tokens it took from the front.
pub struct Parsed {
    pub result: Result<Node, Error>,
    pub taken: nat,
}

/// What remains of `tokens` without the first `n`.
pub open spec fn remaining(tokens: Seq<Token>, n: nat) -> Seq<Token> {
    if n <= tokens.len() {
        tokens.skip(n as int)
    } else {
        Seq::empty()
    }
}

/// How loosely a binary operator binds: `**` binds tightest, then `*`, `/` and
/// `%`, then `+` and `-`.
pub open spec fn level_of(operator: Operator) -> nat {
    match operator {
        Operator::Exponent => 1,
        Operator::Mul | Operator::Div | Operator::Modulus => 2,
        Operator::Plus | Operator::Minus => 3,
    }
}

/// The operator that `token` is, where it is one of the given level.
pub open spec fn operator_at(level: nat, token: Token) -> Option<Operator> {
    match token {
        Token::Operator(operator) if level_of(operator) == level => Some(operator),
        _ => None,
    }
}

/// A term: a number, a sign and a term, or an expression in parentheses.
pub open spec fn term(tokens: Seq<Token>) -> Parsed
    decreases tokens.len(), 0nat,
{
    match front(tokens) {
        Token::Number(span) => Parsed { result: Ok(Node::Number(span)), taken: 1 },
        Token::Operator(operator) if operator.is_sign() => {
            let operand = term(tokens.skip(1));
            Parsed {
                result: match operand.result {
                    Ok(expression) => Ok(
                        Node::UnaryOperator(Box::new(UnaryOperator { operator, expression })),
                    ),
                    Err(error) => Err(error),
                },
                taken: 1 + operand.taken,
            }
        },
        Token::LParen => {
            let inner = chain(3, tokens.skip(1));
            let after = remaining(tokens, 1 + inner.taken);
            match inner.result {
                Ok(node) => match front(after) {
                    Token::RParen => Parsed { result: Ok(node), taken: 2 + inner.taken },
                    other => Parsed {
                        result: Err(Error::ExpectedClosingParen(other)),
                        taken: 1 + inner.taken + if after.len() > 0 {
                            1nat
                        } else {
                            0nat
                        },
                    },
                },
                Err(error) => Parsed { result: Err(error), taken: 1 + inner.taken },
            }
        },
        other => Parsed {
            result: Err(Error::ExpectedNumber(other)),
            taken: if tokens.len() > 0 {
                1
            } else {
                0
            },
        },
    }
}

/// What stands on either side of an operator of the given level: a term for
/// `**`, and for the others a chain of the level below.
pub open spec fn operand(level: nat, tokens: Seq<Token>) -> Parsed
    decreases tokens.len(), 3 * level + 1,
{
    if level <= 1 {
        term(tokens)
    } else {
        chain((level - 1) as nat, tokens)
    }
}

/// One operand, and then as many operators of the given level, each with its
/// operand, as follow. The chain groups to the left: `a - b - c` is
/// `(a - b) - c`.
pub open spec fn chain(level: nat, tokens: Seq<Token>) -> Parsed
    decreases tokens.len(), 3 * level + 3,
{
    let first = operand(level, tokens);
    match first.result {
        Ok(left) => {
            let more = tail(level, left, remaining(tokens, first.taken));
            Parsed { result: more.result, taken: first.taken + more.taken }
        },
        Err(error) => first,
    }
}

/// The chain that goes on from `left`, which has been read already.
pub open spec fn tail(level: nat, left: Node, tokens: Seq<Token>) -> Parsed
    decreases tokens.len(), 3 * level + 2,
{
    match operator_at(level, front(tokens)) {
        Some(operator) => {
            let second = operand(level, tokens.skip(1));
            match second.result {
                Ok(right) => {
                    let joined = Node::BinOperator(Box::new(BinOperator { left, operator, right }));
                    let more = tail(level, joined, remaining(tokens, 1 + second.taken));
                    Parsed { result: more.result, taken: 1 + second.taken + more.taken }
                },
                Err(error) => Parsed { result: Err(error), taken: 1 + second.taken },
            }
        },
        None => Parsed { result: Ok(left), taken: 0 },
    }
}

/// A whole line: an expression, with `EndOfFile` next. The `EndOfFile` is
/// looked at and left where it is.
pub open spec fn parse(tokens: Seq<Token>) -> Parsed {
    let whole = chain(3, tokens);
    match whole.result {
        Ok(node) => match front(remaining(tokens, whole.taken)) {
            Token::EndOfFile => whole,
            other => Parsed { result: Err(Error::ExpectedEndOfFile(other)), taken: whole.taken },
        },
        Err(error) => whole,
    }
}

/// No rule takes more tokens than it is given.
pub proof fn lemma_taken_bounded(level: nat, tokens: Seq<Token>)
    ensures
        term(tokens).taken <= tokens.len(),
        operand(level, tokens).taken <= tokens.len(),
        chain(level, tokens).taken <= tokens.len(),
    decreases tokens.len(), level, 2nat,
{
    lemma_term_bounded(tokens);
    if level > 1 {
        lemma_taken_bounded((level - 1) as nat, tokens);
    }
    let first = operand(level, tokens);
    if let Ok(node) = first.result {
        lemma_tail_bounded(level, node, remaining(tokens, first.taken));
    }
}

proof fn lemma_term_bounded(tokens: Seq<Token>)
    ensures
        term(tokens).taken <= tokens.len(),
    decreases tokens.len(), 0nat, 0nat,
{
    match front(tokens) {
        Token::Operator(operator) if operator.is_sign() => {
            lemma_term_bounded(tokens.skip(1));
        },
        Token::LParen => {
            lemma_taken_bounded(3, tokens.skip(1));
        },
        _ => {},
    }
}

/// No chain takes more tokens than it is given as it goes on.
pub proof fn lemma_tail_bounded(level: nat, left: Node, tokens: Seq<Token>)
    ensures
        tail(level, left, tokens).taken <= tokens.len(),
    decreases tokens.len(), level, 1nat,
{
    if let Some(operator) = operator_at(level, front(tokens)) {
        let second = operand(level, tokens.skip(1));
        lemma_taken_bounded(level, tokens.skip(1));
        if let Ok(right) = second.result {
            let joined = Node::BinOperator(Box::new(BinOperator { left, operator, right }));
            lemma_tail_bounded(level, joined, remaining(tokens, 1 + second.taken));
        }
    }
}

/// Whether the tree that a rule built, if it built one, is well formed.
pub open spec fn built_well_formed(parsed: Parsed) -> bool {
    match parsed.result {
        Ok(node) => node.well_formed(),
        Err(_) => true,
    }
}

/// Every tree that a rule of the grammar builds is well formed: its signs are
/// `Plus` and `Minus` alone.
pub proof fn lemma_rules_well_formed(level: nat, tokens: Seq<Token>)
    ensures
        built_well_formed(term(tokens)),
        built_well_formed(operand(level, tokens)),
        built_well_formed(chain(level, tokens)),
    decreases tokens.len(), level, 2nat,
{
    lemma_term_well_formed(tokens);
    if level > 1 {
        lemma_rules_well_formed((level - 1) as nat, tokens);
    }
    let first = operand(level, tokens);
    if let Ok(node) = first.result {
        lemma_tail_well_formed(level, node, remaining(tokens, first.taken));
    }
}

/// The tree of a whole line is well formed.
pub proof fn lemma_parse_well_formed(tokens: Seq<Token>)
    ensures
        built_well_formed(parse(tokens)),
{
    lemma_rules_well_formed(3, tokens);
}

proof fn lemma_term_well_formed(tokens: Seq<Token>)
    ensures
        built_well_formed(term(tokens)),
    decreases tokens.len(), 0nat, 0nat,
{
    match front(tokens) {
        Token::Operator(operator) if operator.is_sign() => {
            lemma_term_well_formed(tokens.skip(1));
        },
        Token::LParen => {
            lemma_rules_well_formed(3, tokens.skip(1));
        },
        _ => {},
    }
}

/// A chain that goes on from a well-formed tree ends in one.
pub proof fn lemma_tail_well_formed(level: nat, left: Node, tokens: Seq<Token>)
    requires
        left.well_formed(),
    ensures
        built_well_formed(tail(level, left, tokens)),
    decreases tokens.len(), level, 1nat,
{
    if let Some(operator) = operator_at(level, front(tokens)) {
        let second = operand(level, tokens.skip(1));
        lemma_rules_well_formed(level, tokens.skip(1));
        if let Ok(right) = second.result {
            let joined = Node::BinOperator(Box::new(BinOperator { left, operator, right }));
            lemma_tail_well_formed(level, joined, remaining(tokens, 1 + second.taken));
        }
    }
}

/// What remains of what remains is what remains of the whole.
proof fn lemma_remaining_twice(tokens: Seq<Token>, m: nat, n: nat)
    ensures
        remaining(remaining(tokens, m), n) == remaining(tokens, m + n),
{
    assert(remaining(remaining(tokens, m), n) =~= remaining(tokens, m + n));
}

/// The parser of one line. It holds the line's tokens and takes them from the
/// front as it reads.
#[derive(Debug)]
pub struct Parser {
    lexer: Lexer,
}

impl Parser {
    /// The tokens that have not been read yet, the next one first.
    pub closed spec fn tokens(&self) -> Seq<Token> {
        self.lexer.tokens()
    }

    /// A parser that holds the tokens of `text`, none of them read.
    ///
    /// A literal with two points is no number: a line that holds one is not
    /// to be read.
    pub fn new(text: &str) -> (parser: Self)
        requires
            literals_well_formed(text@, 0),
        ensures
            parser.tokens() == scan(text@, 0).push(Token::EndOfFile),
    {
        let mut lexer = Lexer::new(text);
        lexer.lex();
        Parser { lexer }
    }

    /// Reads a term: a number, a sign and a term, or an expression in
    /// parentheses.
    fn term(&mut self) -> (r: Result<Node, Error>)
        ensures
            r == term(old(self).tokens()).result,
            final(self).tokens() == remaining(old(self).tokens(), term(old(self).tokens()).taken),
        decreases old(self).tokens().len(), 0nat,
    {
        let ghost tokens = self.tokens();
        let token = self.lexer.next();
        match token {
            Token::Number(span) => Ok(Node::Number(span)),
            Token::Operator(operator) => match operator {
                Operator::Plus | Operator::Minus => {
                    proof {
                        lemma_remaining_twice(tokens, 1, term(tokens.skip(1)).taken);
                    }
                    match self.term() {
                        Ok(expression) => Ok(
                            Node::UnaryOperator(Box::new(UnaryOperator { operator, expression })),
                        ),
                        Err(error) => Err(error),
                    }
                },
                _ => Err(Error::ExpectedNumber(token)),
            },
            Token::LParen => {
                proof {
                    lemma_remaining_twice(tokens, 1, chain(3, tokens.skip(1)).taken);
                    lemma_taken_bounded(3, tokens.skip(1));
                }
                match self.addition_expr() {
                    Ok(node) => {
                        let current_token = self.lexer.next();
                        proof {
                            lemma_remaining_twice(tokens, 1 + chain(3, tokens.skip(1)).taken, 1);
                        }
                        match current_token {
                            Token::RParen => Ok(node),
                            _ => Err(Error::ExpectedClosingParen(current_token)),
                        }
                    },
                    Err(error) => Err(error),
                }
            },
            _ => Err(Error::ExpectedNumber(token)),
        }
    }

    /// Reads a chain of terms with `**` between them.
    fn exponent_expr(&mut self) -> (r: Result<Node, Error>)
        ensures
            r == chain(1, old(self).tokens()).result,
            final(self).tokens() == remaining(old(self).tokens(), chain(1, old(self).tokens()).taken),
        decreases old(self).tokens().len(), 1nat,
    {
        let ghost tokens = self.tokens();
        let mut node = match self.term() {
            Ok(node) => node,
            Err(error) => {
                return Err(error);
            },
        };
        proof {
            lemma_term_bounded(tokens);
        }
        let ghost mut read: nat = term(tokens).taken;
        while is_exponent(self.lexer.peek())
            invariant
                tokens == old(self).tokens(),
                read <= tokens.len(),
                self.tokens() == remaining(tokens, read),
                chain(1, tokens).result == tail(1, node, self.tokens()).result,
                chain(1, tokens).taken == read + tail(1, node, self.tokens()).taken,
            decreases self.tokens().len(),
        {
            let ghost here = self.tokens();
            let token = self.lexer.next();
            proof {
                assert(self.tokens() == here.skip(1));
                assert(operator_at(1, front(here)) is Some);
                assert(operand(1, here.skip(1)) == term(here.skip(1)));
                lemma_term_bounded(here.skip(1));
                lemma_remaining_twice(tokens, read, 1);
                lemma_remaining_twice(tokens, read + 1, term(here.skip(1)).taken);
                lemma_remaining_twice(here, 1, term(here.skip(1)).taken);
            }
            if let Token::Operator(operator) = token {
                match self.term() {
                    Ok(right) => {
                        node =
                        Node::BinOperator(Box::new(BinOperator { left: node, operator, right }));
                    },
                    Err(error) => {
                        return Err(error);
                    },
                }
            }
            proof {
                read = read + 1 + term(here.skip(1)).taken;
            }
        }
        Ok(node)
    }

    /// Reads a chain of powers with `*`, `/` or `%` between them.
    fn multiplication_expr(&mut self) -> (r: Result<Node, Error>)
        ensures
            r == chain(2, old(self).tokens()).result,
            final(self).tokens() == remaining(old(self).tokens(), chain(2, old(self).tokens()).taken),
        decreases old(self).tokens().len(), 2nat,
    {
        let ghost tokens = self.tokens();
        let mut node = match self.exponent_expr() {
            Ok(node) => node,
            Err(error) => {
                return Err(error);
            },
        };
        proof {
            lemma_taken_bounded(1, tokens);
        }
        let ghost mut read: nat = chain(1, tokens).taken;
        while is_muldivmod(self.lexer.peek())
            invariant
                tokens == old(self).tokens(),
                read <= tokens.len(),
                self.tokens() == remaining(tokens, read),
                chain(2, tokens).result == tail(2, node, self.tokens()).result,
                chain(2, tokens).taken == read + tail(2, node, self.tokens()).taken,
            decreases self.tokens().len(),
        {
            let ghost here = self.tokens();
            let token = self.lexer.next();
            proof {
                assert(self.tokens() == here.skip(1));
                assert(operator_at(2, front(here)) is Some);
                assert(operand(2, here.skip(1)) == chain(1, here.skip(1)));
                lemma_taken_bounded(1, here.skip(1));
                lemma_remaining_twice(tokens, read, 1);
                lemma_remaining_twice(tokens, read + 1, chain(1, here.skip(1)).taken);
                lemma_remaining_twice(here, 1, chain(1, here.skip(1)).taken);
            }
            if let Token::Operator(operator) = token {
                match self.exponent_expr() {
                    Ok(right) => {
                        node =
                        Node::BinOperator(Box::new(BinOperator { left: node, operator, right }));
                    },
                    Err(error) => {
                        return Err(error);
                    },
                }
            }
            proof {
                read = read + 1 + chain(1, here.skip(1)).taken;
            }
        }
        Ok(node)
    }

    /// Reads a chain of products with `+` or `-` between them: an expression.
    fn addition_expr(&mut self) -> (r: Result<Node, Error>)
        ensures
            r == chain(3, old(self).tokens()).result,
            final(self).tokens() == remaining(old(self).tokens(), chain(3, old(self).tokens()).taken),
        decreases old(self).tokens().len(), 3nat,
    {
        let ghost tokens = self.tokens();
        let mut node = match self.multiplication_expr() {
            Ok(node) => node,
            Err(error) => {
                return Err(error);
            },
        };
        proof {
            lemma_taken_bounded(2, tokens);
        }
        let ghost mut read: nat = chain(2, tokens).taken;
        while is_addsub(self.lexer.peek())
            invariant
                tokens == old(self).tokens(),
                read <= tokens.len(),
                self.tokens() == remaining(tokens, read),
                chain(3, tokens).result == tail(3, node, self.tokens()).result,
                chain(3, tokens).taken == read + tail(3, node, self.tokens()).taken,
            decreases self.tokens().len(),
        {
            let ghost here = self.tokens();
            let token = self.lexer.next();
            proof {
                assert(self.tokens() == here.skip(1));
                assert(operator_at(3, front(here)) is Some);
                assert(operand(3, here.skip(1)) == chain(2, here.skip(1)));
                lemma_taken_bounded(2, here.skip(1));
                lemma_remaining_twice(tokens, read, 1);
                lemma_remaining_twice(tokens, read + 1, chain(2, here.skip(1)).taken);
                lemma_remaining_twice(here, 1, chain(2, here.skip(1)).taken);
            }
            if let Token::Operator(operator) = token {
                match self.multiplication_expr() {
                    Ok(right) => {
                        node =
                        Node::BinOperator(Box::new(BinOperator { left: node, operator, right }));
                    },
                    Err(error) => {
                        return Err(error);
                    },
                }
            }
            proof {
                read = read + 1 + chain(2, here.skip(1)).taken;
            }
        }
        Ok(node)
    }

    /// Reads one whole line: an expression with nothing but `EndOfFile` behind
    /// it. The first thing that is out of place ends the reading and is the
    /// error.
    pub fn parse(&mut self) -> (r: Result<Node, Error>)
        ensures
            r == parse(old(self).tokens()).result,
            final(self).tokens() == remaining(old(self).tokens(), parse(old(self).tokens()).taken),
    {
        match self.addition_expr() {
            Ok(node) => {
                let current_token = self.lexer.peek();
                match current_token {
                    Token::EndOfFile => Ok(node),
                    _ => Err(Error::ExpectedEndOfFile(current_token)),
                }
            },
            Err(error) => Err(error),
        }
    }
}

} // verus!
