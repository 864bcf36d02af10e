use crate::ast::{BinOperator, Node, UnaryOperator};
use crate::error::Error;
use crate::grammar::{lemma_parse_complete, spells};
use crate::lexer::{literals_well_formed, scan, Lexer};
use crate::parser::{lemma_parse_well_formed, parse, Parser};
use crate::token::{Operator, Span, Token};
use vstd::prelude::*;

verus! {

/// What an expression comes to.
#[derive(Debug, PartialEq, Eq, Structural, Clone, Copy)]
pub enum Value {
    /// A number, as the sixty-four bits that the caller gave for it.
    Number(u64),
    /// Nothing. No expression of today's grammar comes to it.
    NoValue,
}

/// One piece of arithmetic that the interpreter asks its caller for. The
/// answer is a number, as sixty-four bits of the caller's choosing.
///
/// The calculator means the numbers of IEEE 754 in their binary64 form, and
/// the bits that encode them. The interpreter itself looks at no bit: it hands
/// on what it was given.
#[derive(Debug, PartialEq, Eq, Structural, Clone, Copy)]
pub enum Request {
    /// The number that the literal at this place of the line denotes.
    Literal(Span),
    /// The negative of this number.
    Negation(u64),
    /// What this operator makes of these two numbers, the left one first: the
    /// sum for `Plus`, the difference for `Minus`, the product for `Mul`, the
    /// quotient for `Div`, the remainder of the division for `Modulus`, and the
    /// left number raised to the right one for `Exponent`.
    Binary(Operator, u64, u64),
}

/// How far the interpreter came with the answers it was given.
#[derive(Debug, PartialEq, Eq, Structural, Clone, Copy)]
pub enum Progress {
    /// The expression has this value.
    Finished(Value),
    /// The answer to this request is the next one needed.
    Pending(Request),
}

/// What came of walking a tree: the progress made or the first error, and how
/// many of the answers are used up.
pub struct Walked {
    pub result: Result<Progress, Error>,
    pub used: nat,
}

/// The value of a piece of arithmetic, as far as the answers reach: the next
/// unused answer is its result, and without one it is what is pending.
pub open spec fn answered(request: Request, answers: Seq<u64>, used: nat) -> Walked {
    if used < answers.len() {
        Walked { result: Ok(Progress::Finished(Value::Number(answers[used as int]))), used: used + 1 }
    } else {
        Walked { result: Ok(Progress::Pending(request)), used }
    }
}

/// What two values and the operator between them come to.
pub open spec fn joined(operator: Operator, left: Value, right: Value, answers: Seq<u64>, used: nat)
    -> Walked {
    match (left, right) {
        (Value::Number(a), Value::Number(b)) => answered(
            Request::Binary(operator, a, b),
            answers,
            used,
        ),
        _ => Walked { result: Err(Error::ExpectedNumberForBinary(operator, left, right)), used },
    }
}

/// What a value with a sign in front of it comes to.
pub open spec fn signed(operator: Operator, operand: Value, answers: Seq<u64>, used: nat) -> Walked {
    match operator {
        Operator::Plus => Walked { result: Ok(Progress::Finished(operand)), used },
        Operator::Minus => match operand {
            Value::Number(a) => answered(Request::Negation(a), answers, used),
            _ => Walked { result: Err(Error::ExpectedNumberForUnary(operator, operand)), used },
        },
        _ => Walked { result: Err(Error::ExpectedUnaryOperator(operator)), used },
    }
}

/// Walks `node` with the answers from position `used` on.
///
/// The branches of a node are walked from left to right, and then the node's
/// own arithmetic is asked for. Each piece of arithmetic takes the next answer.
/// The walk stops at the first piece that has none, and at the first error.
pub open spec fn walk(node: Node, answers: Seq<u64>, used: nat) -> Walked
    decreases node,
{
    match node {
        Node::Number(span) => answered(Request::Literal(span), answers, used),
        Node::UnaryOperator(unary) => match unary.operator {
            Operator::Plus | Operator::Minus => {
                let inner = walk(unary.expression, answers, used);
                match inner.result {
                    Ok(Progress::Finished(operand)) => signed(
                        unary.operator,
                        operand,
                        answers,
                        inner.used,
                    ),
                    _ => inner,
                }
            },
            _ => Walked { result: Err(Error::ExpectedUnaryOperator(unary.operator)), used },
        },
        Node::BinOperator(binary) => {
            let left = walk(binary.left, answers, used);
            match left.result {
                Ok(Progress::Finished(a)) => {
                    let right = walk(binary.right, answers, left.used);
                    match right.result {
                        Ok(Progress::Finished(b)) => joined(
                            binary.operator,
                            a,
                            b,
                            answers,
                            right.used,
                        ),
                        _ => right,
                    }
                },
                _ => left,
            }
        },
    }
}

/// What a line comes to with the answers given so far: the first error of the
/// parser, or else what the walk of its tree gives.
pub open spec fn evaluate(text: Seq<char>, answers: Seq<u64>) -> Result<Progress, Error> {
    match parse(scan(text, 0).push(Token::EndOfFile)).result {
        Ok(node) => walk(node, answers, 0).result,
        Err(error) => Err(error),
    }
}

/// How many pieces of arithmetic the value of `node` takes: one for each
/// literal, each `Minus` sign and each binary operator.
pub open spec fn requests(node: Node) -> nat
    decreases node,
{
    match node {
        Node::Number(_) => 1,
        Node::UnaryOperator(unary) => requests(unary.expression) + if unary.operator
            == Operator::Minus {
            1nat
        } else {
            0nat
        },
        Node::BinOperator(binary) => requests(binary.left) + requests(binary.right) + 1,
    }
}

/// The value of `node` where `reply` does the arithmetic.
pub open spec fn value(node: Node, reply: spec_fn(Request) -> u64) -> u64
    decreases node,
{
    match node {
        Node::Number(span) => reply(Request::Literal(span)),
        Node::UnaryOperator(unary) => if unary.operator == Operator::Minus {
            reply(Request::Negation(value(unary.expression, reply)))
        } else {
            value(unary.expression, reply)
        },
        Node::BinOperator(binary) => reply(
            Request::Binary(
                binary.operator,
                value(binary.left, reply),
                value(binary.right, reply),
            ),
        ),
    }
}

/// The results of the arithmetic that the value of `node` takes, in the order
/// of the walk, where `reply` does the arithmetic.
pub open spec fn trace(node: Node, reply: spec_fn(Request) -> u64) -> Seq<u64>
    decreases node,
{
    match node {
        Node::Number(span) => seq![value(node, reply)],
        Node::UnaryOperator(unary) => if unary.operator == Operator::Minus {
            trace(unary.expression, reply).push(value(node, reply))
        } else {
            trace(unary.expression, reply)
        },
        Node::BinOperator(binary) => (trace(binary.left, reply) + trace(binary.right, reply)).push(
            value(node, reply),
        ),
    }
}

/// Whether each of `answers` is what `reply` makes of the request that is
/// pending once the answers before it are given.
pub open spec fn faithful(node: Node, reply: spec_fn(Request) -> u64, answers: Seq<u64>) -> bool {
    forall|n: int|
        0 <= n < answers.len() ==> match (#[trigger] walk(node, answers.take(n), 0)).result {
            Ok(Progress::Pending(request)) => answers[n] == reply(request),
            _ => true,
        }
}

/// Whether a walk stopped at a piece of arithmetic that has no answer yet.
pub open spec fn is_pending(result: Result<Progress, Error>) -> bool {
    result matches Ok(Progress::Pending(_))
}

/// The walk of a well-formed tree ends in a number as soon as it has an answer
/// for each piece of arithmetic, and that number is the last answer it took.
/// With fewer answers it is pending. It never ends in an error.
pub proof fn lemma_walk_progress(node: Node, answers: Seq<u64>, used: nat)
    requires
        node.well_formed(),
        used <= answers.len(),
    ensures
        requests(node) >= 1,
        used + requests(node) <= answers.len() ==> walk(node, answers, used) == (Walked {
            result: Ok(Progress::Finished(Value::Number(answers[used + requests(node) - 1]))),
            used: used + requests(node),
        }),
        used + requests(node) > answers.len() ==> is_pending(walk(node, answers, used).result),
    decreases node,
{
    match node {
        Node::Number(_) => {},
        Node::UnaryOperator(unary) => {
            lemma_walk_progress(unary.expression, answers, used);
        },
        Node::BinOperator(binary) => {
            lemma_walk_progress(binary.left, answers, used);
            if used + requests(binary.left) <= answers.len() {
                lemma_walk_progress(binary.right, answers, used + requests(binary.left));
            }
        },
    }
}

/// A line that the parser accepts comes to a number once every piece of its
/// arithmetic is answered, and until then its next piece is pending: a caller
/// that answers each request in turn is done after as many calls as the tree
/// has requests. A line that the parser refuses is that error whatever the
/// answers.
pub proof fn lemma_evaluate_finishes(text: Seq<char>, answers: Seq<u64>)
    ensures
        match parse(scan(text, 0).push(Token::EndOfFile)).result {
            Ok(node) => if answers.len() >= requests(node) {
                evaluate(text, answers) == Ok::<Progress, Error>(
                    Progress::Finished(Value::Number(answers[requests(node) - 1])),
                )
            } else {
                is_pending(evaluate(text, answers))
            },
            Err(error) => evaluate(text, answers) == Err::<Progress, Error>(error),
        },
{
    let tokens = scan(text, 0).push(Token::EndOfFile);
    lemma_parse_well_formed(tokens);
    if let Ok(node) = parse(tokens).result {
        lemma_walk_progress(node, answers, 0);
    }
}

/// Every line of the grammar comes to a number: where the tokens of `text`
/// spell `node`, the line is pending until each request of `node` has its
/// answer, and then its value is the number that was answered last.
pub proof fn lemma_grammar_line_finishes(text: Seq<char>, node: Node, answers: Seq<u64>)
    requires
        spells(3, node, scan(text, 0)),
    ensures
        requests(node) >= 1,
        answers.len() >= requests(node) ==> evaluate(text, answers) == Ok::<Progress, Error>(
            Progress::Finished(Value::Number(answers[requests(node) - 1])),
        ),
        answers.len() < requests(node) ==> is_pending(evaluate(text, answers)),
{
    let tokens = scan(text, 0);
    lemma_parse_complete(node, tokens);
    lemma_parse_well_formed(tokens.push(Token::EndOfFile));
    lemma_walk_progress(node, answers, 0);
}

/// The walk from `used` on, where the answers there are those of `reply` as
/// far as they go.
proof fn lemma_walk_replies(
    node: Node,
    reply: spec_fn(Request) -> u64,
    answers: Seq<u64>,
    used: nat,
)
    requires
        node.well_formed(),
        used <= answers.len(),
        forall|i: int|
            0 <= i < requests(node) && used + i < answers.len() ==> answers[used + i] == trace(
                node,
                reply,
            )[i],
    ensures
        trace(node, reply).len() == requests(node),
        trace(node, reply).last() == value(node, reply),
        used + requests(node) <= answers.len() ==> walk(node, answers, used) == (Walked {
            result: Ok(Progress::Finished(Value::Number(value(node, reply)))),
            used: used + requests(node),
        }),
        used + requests(node) > answers.len() ==> match walk(node, answers, used).result {
            Ok(Progress::Pending(request)) => reply(request) == trace(node, reply)[answers.len()
                - used],
            _ => false,
        },
    decreases node,
{
    lemma_walk_progress(node, answers, used);
    lemma_trace_len(node, reply);
    match node {
        Node::Number(_) => {
            if used < answers.len() {
                assert(answers[used + 0int] == trace(node, reply)[0]);
            }
        },
        Node::UnaryOperator(unary) => {
            let inner = unary.expression;
            lemma_trace_len(inner, reply);
            assert forall|i: int|
                0 <= i < requests(inner) && used + i < answers.len() implies answers[used + i]
                == trace(inner, reply)[i] by {
                assert(trace(inner, reply)[i] == trace(node, reply)[i]);
            }
            lemma_walk_replies(inner, reply, answers, used);
            let last = requests(inner) as int;
            if unary.operator == Operator::Minus && used + last < answers.len() {
                assert(answers[used + last] == trace(node, reply)[last]);
            }
        },
        Node::BinOperator(binary) => {
            let left = binary.left;
            let right = binary.right;
            lemma_trace_len(left, reply);
            lemma_trace_len(right, reply);
            lemma_walk_progress(left, answers, used);
            assert forall|i: int|
                0 <= i < requests(left) && used + i < answers.len() implies answers[used + i]
                == trace(left, reply)[i] by {
                assert(trace(left, reply)[i] == trace(node, reply)[i]);
            }
            lemma_walk_replies(left, reply, answers, used);
            if used + requests(left) <= answers.len() {
                let middle = used + requests(left);
                assert forall|i: int|
                    0 <= i < requests(right) && middle + i < answers.len() implies answers[middle
                    + i] == trace(right, reply)[i] by {
                    assert(trace(right, reply)[i] == trace(node, reply)[requests(left) + i]);
                    assert(middle + i == used + (requests(left) + i));
                }
                lemma_walk_replies(right, reply, answers, middle);
                let last = (requests(left) + requests(right)) as int;
                if used + last < answers.len() {
                    assert(answers[used + last] == trace(node, reply)[last]);
                }
            }
        },
    }
}

/// A trace holds one result for each request.
proof fn lemma_trace_len(node: Node, reply: spec_fn(Request) -> u64)
    ensures
        trace(node, reply).len() == requests(node),
    decreases node,
{
    match node {
        Node::Number(_) => {},
        Node::UnaryOperator(unary) => {
            lemma_trace_len(unary.expression, reply);
        },
        Node::BinOperator(binary) => {
            lemma_trace_len(binary.left, reply);
            lemma_trace_len(binary.right, reply);
        },
    }
}

/// The first `n` of faithful answers are the first `n` of the trace.
proof fn lemma_faithful_prefix(
    node: Node,
    reply: spec_fn(Request) -> u64,
    answers: Seq<u64>,
    n: nat,
)
    requires
        node.well_formed(),
        faithful(node, reply, answers),
        n <= answers.len(),
        n <= requests(node),
    ensures
        forall|i: int| 0 <= i < n ==> answers[i] == trace(node, reply)[i],
    decreases n,
{
    if n > 0 {
        let before = (n - 1) as nat;
        lemma_faithful_prefix(node, reply, answers, before);
        let given = answers.take(before as int);
        assert forall|i: int|
            0 <= i < requests(node) && 0 + i < given.len() implies given[0 + i] == trace(
            node,
            reply,
        )[i] by {
            assert(given[i] == answers[i]);
        }
        lemma_walk_replies(node, reply, given, 0);
        assert(is_pending(walk(node, answers.take(before as int), 0).result));
    }
}

/// Whatever does the arithmetic, the value of a well-formed tree is a function
/// of the tree and of that arithmetic alone.
///
/// Let `reply` give each request its result, and let each answer be the reply
/// to the request that was pending when it was given. Then the answers are the
/// trace of the tree as far as they go, and the walk ends in `value(node,
/// reply)` once they are as many as the tree has requests. So two callers that
/// compute alike are handed the same requests and come to the same value.
pub proof fn lemma_faithful_walk(node: Node, reply: spec_fn(Request) -> u64, answers: Seq<u64>)
    requires
        node.well_formed(),
        faithful(node, reply, answers),
    ensures
        trace(node, reply).len() == requests(node),
        forall|i: int|
            0 <= i < answers.len() && i < requests(node) ==> answers[i] == trace(node, reply)[i],
        answers.len() >= requests(node) ==> walk(node, answers, 0).result == Ok::<
            Progress,
            Error,
        >(Progress::Finished(Value::Number(value(node, reply)))),
        answers.len() < requests(node) ==> match walk(node, answers, 0).result {
            Ok(Progress::Pending(request)) => reply(request) == trace(node, reply)[answers.len()
                - 0],
            _ => false,
        },
{
    lemma_trace_len(node, reply);
    let n = if answers.len() <= requests(node) {
        answers.len()
    } else {
        requests(node)
    };
    lemma_faithful_prefix(node, reply, answers, n);
    lemma_walk_replies(node, reply, answers, 0);
}

/// To interpret a line twice is to come to the same result.
///
/// Let two callers take the same line through the interpreter, each until it
/// is done, and let both answer each request as `reply` does. Then both end
/// with the same value, or with the same error.
pub proof fn lemma_evaluate_twice(
    text: Seq<char>,
    reply: spec_fn(Request) -> u64,
    first: Seq<u64>,
    second: Seq<u64>,
)
    requires
        match parse(scan(text, 0).push(Token::EndOfFile)).result {
            Ok(node) => faithful(node, reply, first) && faithful(node, reply, second)
                && !is_pending(evaluate(text, first)) && !is_pending(evaluate(text, second)),
            Err(_) => true,
        },
    ensures
        evaluate(text, first) == evaluate(text, second),
{
    let tokens = scan(text, 0).push(Token::EndOfFile);
    lemma_parse_well_formed(tokens);
    if let Ok(node) = parse(tokens).result {
        lemma_faithful_walk(node, reply, first);
        lemma_faithful_walk(node, reply, second);
    }
}

/// The interpreter. It keeps nothing from one call to the next.
#[derive(Debug)]
pub struct Interpreter {}

impl Interpreter {
    /// An interpreter, ready for any line.
    pub fn new() -> (interpreter: Self) {
        Interpreter {  }
    }

    /// Takes the next answer for `request`, or reports `request` as pending.
    fn answer(&mut self, request: Request, answers: &[u64], used: usize) -> (r: (
        Result<Progress, Error>,
        usize,
    ))
        ensures
            r.0 == answered(request, answers@, used as nat).result,
            r.1 == answered(request, answers@, used as nat).used,
    {
        if used < answers.len() {
            (Ok(Progress::Finished(Value::Number(answers[used]))), used + 1)
        } else {
            (Ok(Progress::Pending(request)), used)
        }
    }

    /// What `operator` makes of two values: the next answer where both are
    /// numbers, an error where one is not.
    pub fn number_operation(
        &mut self,
        operator: Operator,
        left: Value,
        right: Value,
        answers: &[u64],
        used: usize,
    ) -> (r: (Result<Progress, Error>, usize))
        ensures
            r.0 == joined(operator, left, right, answers@, used as nat).result,
            r.1 == joined(operator, left, right, answers@, used as nat).used,
    {
        match (left, right) {
            (Value::Number(a), Value::Number(b)) => self.answer(
                Request::Binary(operator, a, b),
                answers,
                used,
            ),
            _ => (Err(Error::ExpectedNumberForBinary(operator, left, right)), used),
        }
    }

    /// What the sign `operator` makes of a value: `Plus` leaves it as it is,
    /// `Minus` takes the next answer for a number and is an error for anything
    /// else, and no other operator is a sign.
    pub fn sign_operation(
        &mut self,
        operator: Operator,
        operand: Value,
        answers: &[u64],
        used: usize,
    ) -> (r: (Result<Progress, Error>, usize))
        ensures
            r.0 == signed(operator, operand, answers@, used as nat).result,
            r.1 == signed(operator, operand, answers@, used as nat).used,
    {
        match operator {
            Operator::Plus => (Ok(Progress::Finished(operand)), used),
            Operator::Minus => match operand {
                Value::Number(a) => self.answer(Request::Negation(a), answers, used),
                _ => (Err(Error::ExpectedNumberForUnary(operator, operand)), used),
            },
            _ => (Err(Error::ExpectedUnaryOperator(operator)), used),
        }
    }

    /// Walks the two sides of a binary operator, the left one first, and asks
    /// for what the operator makes of them.
    fn visit_bin_operator(&mut self, node: &BinOperator, answers: &[u64], used: usize) -> (r: (
        Result<Progress, Error>,
        usize,
    ))
        ensures
            r.0 == walk(Node::BinOperator(Box::new(*node)), answers@, used as nat).result,
            r.1 == walk(Node::BinOperator(Box::new(*node)), answers@, used as nat).used,
        decreases *node,
    {
        let (left, used) = self.visit(&node.left, answers, used);
        match left {
            Ok(Progress::Finished(a)) => {
                let (right, used) = self.visit(&node.right, answers, used);
                match right {
                    Ok(Progress::Finished(b)) => self.number_operation(
                        node.operator,
                        a,
                        b,
                        answers,
                        used,
                    ),
                    _ => (right, used),
                }
            },
            _ => (left, used),
        }
    }

    /// Walks what stands behind a sign, and then applies the sign.
    fn visit_unary_operator(&mut self, node: &UnaryOperator, answers: &[u64], used: usize) -> (r: (
        Result<Progress, Error>,
        usize,
    ))
        ensures
            r.0 == walk(Node::UnaryOperator(Box::new(*node)), answers@, used as nat).result,
            r.1 == walk(Node::UnaryOperator(Box::new(*node)), answers@, used as nat).used,
        decreases *node,
    {
        match node.operator {
            Operator::Plus | Operator::Minus => {
                let (inner, used) = self.visit(&node.expression, answers, used);
                match inner {
                    Ok(Progress::Finished(operand)) => self.sign_operation(
                        node.operator,
                        operand,
                        answers,
                        used,
                    ),
                    _ => (inner, used),
                }
            },
            _ => (Err(Error::ExpectedUnaryOperator(node.operator)), used),
        }
    }

    /// Asks for the number that a literal denotes.
    fn visit_number(&mut self, span: Span, answers: &[u64], used: usize) -> (r: (
        Result<Progress, Error>,
        usize,
    ))
        ensures
            r.0 == walk(Node::Number(span), answers@, used as nat).result,
            r.1 == walk(Node::Number(span), answers@, used as nat).used,
    {
        self.answer(Request::Literal(span), answers, used)
    }

    /// Walks `node` with the answers from position `used` on, and says how far
    /// it came and how many answers are then used up.
    pub fn visit(&mut self, node: &Node, answers: &[u64], used: usize) -> (r: (
        Result<Progress, Error>,
        usize,
    ))
        ensures
            r.0 == walk(*node, answers@, used as nat).result,
            r.1 == walk(*node, answers@, used as nat).used,
        decreases *node,
    {
        match node {
            Node::BinOperator(node) => self.visit_bin_operator(node, answers, used),
            Node::UnaryOperator(node) => self.visit_unary_operator(node, answers, used),
            Node::Number(span) => self.visit_number(*span, answers, used),
        }
    }

    /// Takes `text` through the tokenizer and the parser, and walks its tree
    /// with the answers given so far.
    ///
    /// The result is the first error, the value of the line, or the one piece
    /// of arithmetic whose answer is needed next: put that answer behind the
    /// others and call again.
    ///
    /// A literal with two points is no number: a line that holds one is not
    /// to be interpreted.
    pub fn interpret(&mut self, text: &str, answers: &[u64]) -> (r: Result<Progress, Error>)
        requires
            literals_well_formed(text@, 0),
        ensures
            r == evaluate(text@, answers@),
    {
        let mut parser = Parser::new(text);
        match parser.parse() {
            Ok(node) => self.visit(&node, answers, 0).0,
            Err(error) => Err(error),
        }
    }

    /// Interprets `text` as `interpret` does, where every literal of it is a
    /// decimal number, and gives nothing where one has two points.
    pub fn try_interpret(&mut self, text: &str, answers: &[u64]) -> (r: Option<
        Result<Progress, Error>,
    >)
        ensures
            r == if literals_well_formed(text@, 0) {
                Some(evaluate(text@, answers@))
            } else {
                None
            },
    {
        if Lexer::new(text).well_formed() {
            Some(self.interpret(text, answers))
        } else {
            None
        }
    }
}

} // verus!
