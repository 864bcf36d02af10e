//! The grammar of the calculator, said without a parser, and the proof that
//! the parser reads exactly the lines of this grammar.
//!
//! ```text
//! expression      := addition
//! addition        := multiplication ( (+|-) multiplication )*
//! multiplication  := exponentiation ( (*|/|%) exponentiation )*
//! exponentiation  := term ( ** term )*
//! term            := Number | (+|-) term | ( expression )
//! ```

use crate::ast::{BinOperator, Node, UnaryOperator};
use crate::lexer::front;
use crate::parser::{chain, level_of, operand, operator_at, parse, remaining, tail, term, Parsed};
use crate::token::Token;
use vstd::prelude::*;

verus! {

/// Whether `tokens`, all of them, spell `node` as a phrase of the given level:
/// level 0 is a term, and levels 1, 2 and 3 are the chains of `**`, of `*`,
/// `/` and `%`, and of `+` and `-`.
///
/// A phrase of a level is a phrase of the level below, or a phrase of its own
/// level, an operator of its level and a phrase of the level below: the left
/// side of an operator may hold that operator's level again, the right side
/// may not.
pub open spec fn spells(level: nat, node: Node, tokens: Seq<Token>) -> bool
    decreases tokens.len(), level,
{
    if level == 0 {
        ||| match node {
            Node::Number(span) => tokens == seq![Token::Number(span)],
            Node::UnaryOperator(unary) => unary.operator.is_sign() && tokens.len() > 0
                && tokens[0] == Token::Operator(unary.operator) && spells(
                0,
                unary.expression,
                tokens.skip(1),
            ),
            Node::BinOperator(_) => false,
        }
        ||| tokens.len() >= 2 && tokens[0] == Token::LParen && tokens[tokens.len() - 1]
            == Token::RParen && spells(3, node, tokens.subrange(1, tokens.len() - 1))
    } else {
        ||| spells((level - 1) as nat, node, tokens)
        ||| match node {
            Node::BinOperator(binary) => level_of(binary.operator) == level && exists|i: int|
                0 <= i < tokens.len() && tokens[i] == Token::Operator(binary.operator) && spells(
                    level,
                    binary.left,
                    #[trigger] tokens.take(i),
                ) && spells((level - 1) as nat, binary.right, tokens.skip(i + 1)),
            _ => false,
        }
    }
}

/// Whether the tree that a rule built, if it built one, is spelled at the
/// given level by the tokens that the rule took from the front of `tokens`.
pub open spec fn built_as_spelled(level: nat, tokens: Seq<Token>, parsed: Parsed) -> bool {
    match parsed.result {
        Ok(node) => parsed.taken <= tokens.len() && spells(
            level,
            node,
            tokens.take(parsed.taken as int),
        ),
        Err(_) => true,
    }
}

/// A phrase of a level is a phrase of every higher level.
proof fn lemma_spells_higher(level: nat, higher: nat, node: Node, tokens: Seq<Token>)
    requires
        spells(level, node, tokens),
        level <= higher,
    ensures
        spells(higher, node, tokens),
    decreases higher - level,
{
    if level < higher {
        lemma_spells_higher(level, (higher - 1) as nat, node, tokens);
    }
}

/// Every tree that a rule of the parser builds is spelled by the tokens that
/// the rule took.
pub proof fn lemma_rules_spelled(level: nat, tokens: Seq<Token>)
    requires
        level >= 1,
    ensures
        built_as_spelled(0, tokens, term(tokens)),
        built_as_spelled((level - 1) as nat, tokens, operand(level, tokens)),
        built_as_spelled(level, tokens, chain(level, tokens)),
    decreases tokens.len(), level, 2nat,
{
    lemma_term_spelled(tokens);
    if level > 1 {
        lemma_rules_spelled((level - 1) as nat, tokens);
    }
    let first = operand(level, tokens);
    if let Ok(node) = first.result {
        let taken = tokens.take(first.taken as int);
        lemma_spells_higher((level - 1) as nat, level, node, taken);
        let onward = remaining(tokens, first.taken);
        lemma_tail_spelled(level, node, taken, onward);
        let more = tail(level, node, onward);
        if more.result is Ok {
            assert(taken + onward.take(more.taken as int) =~= tokens.take(
                (first.taken + more.taken) as int,
            ));
        }
    }
}

proof fn lemma_term_spelled(tokens: Seq<Token>)
    ensures
        built_as_spelled(0, tokens, term(tokens)),
    decreases tokens.len(), 0nat, 0nat,
{
    let parsed = term(tokens);
    if parsed.result is Ok {
        let taken = tokens.take(parsed.taken as int);
        match front(tokens) {
            Token::Number(span) => {
                assert(taken =~= seq![Token::Number(span)]);
            },
            Token::Operator(operator) if operator.is_sign() => {
                let inner = term(tokens.skip(1));
                lemma_term_spelled(tokens.skip(1));
                assert(taken.skip(1) =~= tokens.skip(1).take(inner.taken as int));
            },
            Token::LParen => {
                let inner = chain(3, tokens.skip(1));
                lemma_rules_spelled(3, tokens.skip(1));
                assert(taken.subrange(1, taken.len() - 1) =~= tokens.skip(1).take(
                    inner.taken as int,
                ));
                assert(taken[taken.len() - 1] == remaining(tokens, 1 + inner.taken)[0]);
            },
            _ => {},
        }
    }
}

/// A chain that goes on from a tree that `read` spells ends in a tree that
/// `read` and the tokens taken since spell.
pub proof fn lemma_tail_spelled(level: nat, left: Node, read: Seq<Token>, tokens: Seq<Token>)
    requires
        level >= 1,
        spells(level, left, read),
    ensures
        match tail(level, left, tokens).result {
            Ok(node) => tail(level, left, tokens).taken <= tokens.len() && spells(
                level,
                node,
                read + tokens.take(tail(level, left, tokens).taken as int),
            ),
            Err(_) => true,
        },
    decreases tokens.len(), level, 1nat,
{
    if let Some(operator) = operator_at(level, front(tokens)) {
        let second = operand(level, tokens.skip(1));
        lemma_rules_spelled(level, tokens.skip(1));
        if let Ok(right) = second.result {
            let joined = Node::BinOperator(Box::new(BinOperator { left, operator, right }));
            let spelled = tokens.skip(1).take(second.taken as int);
            let longer = read + tokens.take((1 + second.taken) as int);
            assert(longer.take(read.len() as int) =~= read);
            assert(longer.skip(read.len() as int + 1) =~= spelled);
            assert(longer[read.len() as int] == tokens[0]);
            assert(spells(level, joined, longer));
            let onward = remaining(tokens, 1 + second.taken);
            lemma_tail_spelled(level, joined, longer, onward);
            let more = tail(level, joined, onward);
            if more.result is Ok {
                assert(longer + onward.take(more.taken as int) =~= read + tokens.take(
                    (1 + second.taken + more.taken) as int,
                ));
            }
        }
    } else {
        assert(read + tokens.take(0) =~= read);
    }
}

/// Every line that the parser reads is a line of the grammar: the tokens in
/// front of the `EndOfFile` spell the tree.
pub proof fn lemma_parse_sound(tokens: Seq<Token>)
    ensures
        match parse(tokens).result {
            Ok(node) => parse(tokens).taken < tokens.len() && tokens[parse(tokens).taken as int]
                == Token::EndOfFile && spells(3, node, tokens.take(parse(tokens).taken as int)),
            Err(_) => true,
        },
{
    lemma_rules_spelled(3, tokens);
}

/// Whether a chain of the given level, or of a level below it, ends in front
/// of `tokens`: no operator below `level` comes next.
pub open spec fn stops(level: nat, tokens: Seq<Token>) -> bool {
    match front(tokens) {
        Token::Operator(operator) => level_of(operator) >= level,
        _ => true,
    }
}

/// A chain that may not go on is the tree read so far.
proof fn lemma_tail_stops(level: nat, left: Node, tokens: Seq<Token>)
    requires
        stops(level + 1, tokens),
    ensures
        tail(level, left, tokens) == (Parsed { result: Ok(left), taken: 0 }),
{
}

/// What stands on one side of an operator is read as it is spelled.
proof fn lemma_reads_operand(level: nat, node: Node, tokens: Seq<Token>, rest: Seq<Token>)
    requires
        level >= 1,
        spells((level - 1) as nat, node, tokens),
        stops(level, rest),
    ensures
        operand(level, tokens + rest) == (Parsed { result: Ok(node), taken: tokens.len() }),
    decreases tokens.len(), level, 0nat,
{
    let below = (level - 1) as nat;
    lemma_reads(below, node, tokens, rest);
    if below >= 1 {
        lemma_tail_stops(below, node, rest);
    }
}

/// A sign and its term are read as they are spelled.
proof fn lemma_reads_sign(unary: UnaryOperator, tokens: Seq<Token>, rest: Seq<Token>)
    requires
        unary.operator.is_sign(),
        tokens.len() > 0,
        tokens[0] == Token::Operator(unary.operator),
        spells(0, unary.expression, tokens.skip(1)),
    ensures
        term(tokens + rest) == (Parsed {
            result: Ok(Node::UnaryOperator(Box::new(unary))),
            taken: tokens.len(),
        }),
    decreases tokens.len(), 0nat, 0nat,
{
    let all = tokens + rest;
    lemma_reads(0, unary.expression, tokens.skip(1), rest);
    assert(all[0] == tokens[0]);
    assert(all.skip(1) =~= tokens.skip(1) + rest);
}

/// An expression in parentheses is read as it is spelled.
proof fn lemma_reads_group(node: Node, tokens: Seq<Token>, rest: Seq<Token>)
    requires
        tokens.len() >= 2,
        tokens[0] == Token::LParen,
        tokens[tokens.len() - 1] == Token::RParen,
        spells(3, node, tokens.subrange(1, tokens.len() - 1)),
    ensures
        term(tokens + rest) == (Parsed { result: Ok(node), taken: tokens.len() }),
    decreases tokens.len(), 0nat, 0nat,
{
    let all = tokens + rest;
    let inner = tokens.subrange(1, tokens.len() - 1);
    let closed = seq![Token::RParen] + rest;
    assert(front(closed) == Token::RParen);
    lemma_reads(3, node, inner, closed);
    lemma_tail_stops(3, node, closed);
    assert(all[0] == tokens[0]);
    assert(all.skip(1) =~= inner + closed);
    assert(remaining(all, (1 + inner.len()) as nat) =~= closed);
    assert(chain(3, all.skip(1)) == (Parsed { result: Ok(node), taken: inner.len() }));
}

/// Two sides and the operator between them are read as they are spelled, and
/// the chain then goes on from the tree that they make.
proof fn lemma_reads_joined(
    level: nat,
    binary: BinOperator,
    tokens: Seq<Token>,
    rest: Seq<Token>,
    i: int,
)
    requires
        level >= 1,
        level_of(binary.operator) == level,
        0 <= i < tokens.len(),
        tokens[i] == Token::Operator(binary.operator),
        spells(level, binary.left, tokens.take(i)),
        spells((level - 1) as nat, binary.right, tokens.skip(i + 1)),
        stops(level, rest),
    ensures
        chain(level, tokens + rest) == (Parsed {
            result: tail(level, Node::BinOperator(Box::new(binary)), rest).result,
            taken: tokens.len() + tail(level, Node::BinOperator(Box::new(binary)), rest).taken,
        }),
    decreases tokens.len(), level, 0nat,
{
    let all = tokens + rest;
    let node = Node::BinOperator(Box::new(binary));
    let before = tokens.take(i);
    let after = tokens.skip(i + 1);
    let onward = seq![Token::Operator(binary.operator)] + (after + rest);
    assert(front(onward) == Token::Operator(binary.operator));
    lemma_reads(level, binary.left, before, onward);
    assert(before + onward =~= all);
    assert(onward.skip(1) =~= after + rest);
    lemma_reads_operand(level, binary.right, after, rest);
    assert(remaining(onward, (1 + after.len()) as nat) =~= rest);
    assert(operator_at(level, front(onward)) == Some(binary.operator));
    let joined = Node::BinOperator(
        Box::new(
            BinOperator { left: binary.left, operator: binary.operator, right: binary.right },
        ),
    );
    assert(joined == node);
    assert(tail(level, binary.left, onward) == (Parsed {
        result: tail(level, node, rest).result,
        taken: 1 + after.len() + tail(level, node, rest).taken,
    }));
}

/// The parser reads what is spelled. A term is read whatever follows it. A
/// chain is read up to its end and then goes on as the parser's own chain
/// does, where no operator of a lower level follows.
pub proof fn lemma_reads(level: nat, node: Node, tokens: Seq<Token>, rest: Seq<Token>)
    requires
        spells(level, node, tokens),
        stops(level, rest),
    ensures
        level == 0 ==> term(tokens + rest) == (Parsed { result: Ok(node), taken: tokens.len() }),
        level >= 1 ==> chain(level, tokens + rest) == (Parsed {
            result: tail(level, node, rest).result,
            taken: tokens.len() + tail(level, node, rest).taken,
        }),
    decreases tokens.len(), level, 1nat,
{
    let all = tokens + rest;
    if level == 0 {
        if tokens.len() >= 2 && tokens[0] == Token::LParen && tokens[tokens.len() - 1]
            == Token::RParen && spells(3, node, tokens.subrange(1, tokens.len() - 1)) {
            lemma_reads_group(node, tokens, rest);
        } else {
            match node {
                Node::Number(span) => {
                    assert(all[0] == tokens[0]);
                },
                Node::UnaryOperator(unary) => {
                    lemma_reads_sign(*unary, tokens, rest);
                },
                Node::BinOperator(_) => {},
            }
        }
    } else {
        let below = (level - 1) as nat;
        if spells(below, node, tokens) {
            lemma_reads_operand(level, node, tokens, rest);
            assert(remaining(all, tokens.len()) =~= rest);
        } else {
            match node {
                Node::BinOperator(binary) => {
                    let i = choose|i: int|
                        0 <= i < tokens.len() && tokens[i] == Token::Operator(binary.operator)
                            && spells(level, binary.left, #[trigger] tokens.take(i)) && spells(
                            below,
                            binary.right,
                            tokens.skip(i + 1),
                        );
                    lemma_reads_joined(level, *binary, tokens, rest, i);
                },
                _ => {},
            }
        }
    }
}

/// Every line of the grammar is read by the parser, as the tree that it
/// spells and up to the `EndOfFile`.
pub proof fn lemma_parse_complete(node: Node, tokens: Seq<Token>)
    requires
        spells(3, node, tokens),
    ensures
        parse(tokens.push(Token::EndOfFile)) == (Parsed { result: Ok(node), taken: tokens.len() }),
{
    let rest = seq![Token::EndOfFile];
    assert(front(rest) == Token::EndOfFile);
    lemma_reads(3, node, tokens, rest);
    lemma_tail_stops(3, node, rest);
    assert(tokens + rest =~= tokens.push(Token::EndOfFile));
    assert(remaining(tokens + rest, tokens.len()) =~= rest);
}

/// No line spells two trees.
pub proof fn lemma_unambiguous(first: Node, second: Node, tokens: Seq<Token>)
    requires
        spells(3, first, tokens),
        spells(3, second, tokens),
    ensures
        first == second,
{
    lemma_parse_complete(first, tokens);
    lemma_parse_complete(second, tokens);
}

} // verus!
