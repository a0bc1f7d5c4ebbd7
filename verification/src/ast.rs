//! The node payloads the structuring engine works on, and the structured
//! program tree it produces.

use vstd::prelude::*;

use crate::cond::Condition;
use crate::Label;

verus! {

/// A node of the graph while it is being structured: either still in input
/// form (a straight-line block or a two-way branch), a synthetic placeholder,
/// or a region already collapsed into a structured payload.
#[derive(Debug)]
pub enum Node {
    Virtual,
    Code { label: Label, id: u64, next: Label },
    Conditional { label: Label, test: Condition, conseq: Label, alt: Label },
    Structured(Label, Structured),
}

/// The recovered program tree: straight-line blocks, sequencing, two-way
/// conditionals, loops, and loop exits.
#[derive(Debug)]
pub enum Structured {
    CodeBlock(u64),
    Sequence(Vec<Structured>),
    If { test: Condition, conseq: Box<Structured>, alt: Option<Box<Structured>> },
    Loop { body: Box<Structured> },
    WhileLoop { test: Condition, body: Box<Structured> },
    Break,
}

impl Node {
    /// The label of the program point this node stands for; synthetic nodes
    /// carry the sentinel.
    pub fn label(&self) -> (r: Label)
        ensures
            r == self.spec_label(),
    {
        match self {
            Node::Virtual => Label::dummy(),
            Node::Code { label, .. } => *label,
            Node::Conditional { label, .. } => *label,
            Node::Structured(label, _) => *label,
        }
    }

    pub open spec fn spec_label(&self) -> Label {
        match self {
            Node::Virtual => Label(u64::MAX),
            Node::Code { label, .. } => *label,
            Node::Conditional { label, .. } => *label,
            Node::Structured(label, _) => *label,
        }
    }

    /// Whether this is a genuine straight-line code node, as opposed to a
    /// branch, a placeholder, or an already-collapsed region. The sub-region
    /// search uses this to rule out degenerate one-node regions.
    pub fn is_code(&self) -> (r: bool)
        ensures
            r == self.spec_is_code(),
    {
        match self {
            Node::Code { .. } => true,
            _ => false,
        }
    }

    pub open spec fn spec_is_code(&self) -> bool {
        self is Code
    }
}

} // verus!
