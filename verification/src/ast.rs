use crate::token::{Operator, Span};
use vstd::prelude::*;

verus! {

/// Two expressions joined by an operator.
#[derive(Debug, PartialEq)]
pub struct BinOperator {
    pub left: Node,
    pub operator: Operator,
    pub right: Node,
}

/// A sign in front of an expression.
#[derive(Debug, PartialEq)]
pub struct UnaryOperator {
    pub operator: Operator,
    pub expression: Node,
}

/// An expression tree. Each node owns its branches.
#[derive(Debug, PartialEq)]
pub enum Node {
    /// A number literal, known by its place in the line.
    Number(Span),
    BinOperator(Box<BinOperator>),
    UnaryOperator(Box<UnaryOperator>),
}

impl Node {
    /// Whether every sign in the tree is `Plus` or `Minus`.
    pub open spec fn well_formed(self) -> bool
        decreases self,
    {
        match self {
            Node::Number(_) => true,
            Node::BinOperator(node) => node.left.well_formed() && node.right.well_formed(),
            Node::UnaryOperator(node) => node.operator.is_sign() && node.expression.well_formed(),
        }
    }
}

} // verus!
