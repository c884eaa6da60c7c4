//! Tree nodes produced by the configuration tokenizer.

use vstd::prelude::*;
use crate::span::Span;

verus! {

/// A statement line, with its source position.
#[derive(Debug)]
pub struct SpannedNodeStmt {
    /// Trimmed statement text.
    pub stmt: String,
    /// Source position of the line.
    pub span: Span,
}

/// A block: a header line and the more deeply indented lines under it.
#[derive(Debug)]
pub struct SpannedNodeBlock {
    /// Trimmed header text.
    pub name: String,
    /// Source position of the header line.
    pub span: Span,
    /// Child nodes, in source order.
    pub stmts: Vec<SpannedNode>,
}

impl SpannedNodeBlock {
    /// The child nodes in source order.
    pub fn stmts(&self) -> (r: &Vec<SpannedNode>)
        ensures
            r == &self.stmts,
    {
        &self.stmts
    }
}

/// A node of the tokenized configuration tree.
#[derive(Debug)]
pub enum SpannedNode {
    Block(SpannedNodeBlock),
    Stmt(SpannedNodeStmt),
}

impl SpannedNode {
    /// The node as a block, when it is one.
    pub fn as_block(&self) -> (r: Option<&SpannedNodeBlock>)
        ensures
            match r {
                Some(b) => *self matches SpannedNode::Block(bb) && *b == bb,
                None => !(*self matches SpannedNode::Block(_)),
            },
    {
        match self {
            SpannedNode::Block(b) => Some(b),
            _ => None,
        }
    }

    /// The node as a statement, when it is one.
    pub fn as_stmt(&self) -> (r: Option<&SpannedNodeStmt>)
        ensures
            match r {
                Some(s) => *self matches SpannedNode::Stmt(ss) && *s == ss,
                None => !(*self matches SpannedNode::Stmt(_)),
            },
    {
        match self {
            SpannedNode::Stmt(s) => Some(s),
            _ => None,
        }
    }
}

/// A statement line without position information.
#[derive(Debug)]
pub struct NodeStmt {
    /// Trimmed statement text.
    pub stmt: String,
}

impl NodeStmt {
    /// The statement text.
    pub fn stmt(&self) -> (r: &str)
        ensures
            r@ == self.stmt@,
    {
        self.stmt.as_str()
    }
}

/// A block without position information.
#[derive(Debug)]
pub struct NodeBlock {
    /// Trimmed header text.
    pub name: String,
    /// Child nodes, in source order.
    pub stmts: Vec<Node>,
}

impl NodeBlock {
    /// The child nodes in source order.
    pub fn stmts(&self) -> (r: &Vec<Node>)
        ensures
            r == &self.stmts,
    {
        &self.stmts
    }
}

/// A node of the tokenized tree without position information.
#[derive(Debug)]
pub enum Node {
    Block(NodeBlock),
    Stmt(NodeStmt),
}

impl Node {
    /// The node as a block, when it is one.
    pub fn as_block(&self) -> (r: Option<&NodeBlock>)
        ensures
            match r {
                Some(b) => *self matches Node::Block(bb) && *b == bb,
                None => !(*self matches Node::Block(_)),
            },
    {
        match self {
            Node::Block(b) => Some(b),
            _ => None,
        }
    }

    /// The node as a statement, when it is one.
    pub fn as_stmt(&self) -> (r: Option<&NodeStmt>)
        ensures
            match r {
                Some(s) => *self matches Node::Stmt(ss) && *s == ss,
                None => !(*self matches Node::Stmt(_)),
            },
    {
        match self {
            Node::Stmt(s) => Some(s),
            _ => None,
        }
    }
}

} // verus!
