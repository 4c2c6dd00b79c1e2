//! The abstract syntax tree produced by the parser.

use vstd::prelude::*;

verus! {

/// One node of the abstract syntax tree: a numeric leaf, a unary
/// negation owning one child, or a binary operator owning two children
/// (left operand first). The tree is finite and each interior node
/// exclusively owns its children.
#[derive(Debug, PartialEq)]
pub enum Node {
    Number(u64),
    Negative(Box<Node>),
    Add(Box<Node>, Box<Node>),
    Subtract(Box<Node>, Box<Node>),
    Multiply(Box<Node>, Box<Node>),
    Divide(Box<Node>, Box<Node>),
    Power(Box<Node>, Box<Node>),
}

} // verus!
