//! A bundled exercise graph for the structuring engine.

use vstd::prelude::*;

use crate::ast::Node;
use crate::cond::{Condition, Condition_};
use crate::Label;

verus! {

/// A straight-line block at arena slot `i` that jumps on to `next`.
fn code(i: u64, next: u64) -> Node {
    Node::Code { label: Label(i), id: i, next: Label(next) }
}

/// A two-way branch at arena slot `i`, guarded by an opaque test of its own.
fn branch(i: u64, conseq: u64, alt: u64) -> Node {
    let test: Condition = std::rc::Rc::new(Condition_::Base(i));
    Node::Conditional { label: Label(i), test, conseq: Label(conseq), alt: Label(alt) }
}

/// The bundled exercise graph: an entry that branches into two dominance
/// diamonds and an irreducible loop region, all draining into one exit.
/// Returns the entry slot, the exit slot, the node arena and the edge list:
/// eighteen nodes, all present, and exactly the twenty-five edges below.
pub fn test_graph() -> (r: (usize, usize, Vec<Option<Node>>, Vec<(usize, usize)>))
    ensures
        r.0 == 0usize,
        r.1 == 11usize,
        r.2@.len() == 18,
        forall|i: int| 0 <= i < 18 ==> #[trigger] r.2@[i] is Some,
        r.3@ == seq![
            (0usize, 1usize),
            (1usize, 2usize),
            (1usize, 3usize),
            (3usize, 4usize),
            (2usize, 4usize),
            (2usize, 5usize),
            (4usize, 6usize),
            (5usize, 6usize),
            (6usize, 7usize),
            (7usize, 8usize),
            (7usize, 9usize),
            (8usize, 10usize),
            (8usize, 11usize),
            (9usize, 10usize),
            (9usize, 11usize),
            (10usize, 7usize),
            (0usize, 12usize),
            (12usize, 14usize),
            (12usize, 13usize),
            (13usize, 12usize),
            (14usize, 16usize),
            (14usize, 15usize),
            (16usize, 17usize),
            (17usize, 12usize),
            (17usize, 11usize),
        ],
{
    // Slots: 0 entry, 1 b1, 2 b2, 3 n4, 4 n5, 5 n6, 6 n7, 7 d1, 8 d2,
    // 9 d3, 10 n8, 11 n9 (exit), 12 c1, 13 n1, 14 c2, 15 n2, 16 n3, 17 c3.
    let mut nodes: Vec<Option<Node>> = Vec::new();
    nodes.push(Some(branch(0, 1, 12)));  // entry
    nodes.push(Some(branch(1, 2, 3)));  // b1
    nodes.push(Some(branch(2, 4, 5)));  // b2
    nodes.push(Some(code(3, 4)));  // n4
    nodes.push(Some(code(4, 6)));  // n5
    nodes.push(Some(code(5, 6)));  // n6
    nodes.push(Some(code(6, 7)));  // n7
    nodes.push(Some(branch(7, 8, 9)));  // d1
    nodes.push(Some(branch(8, 10, 11)));  // d2
    nodes.push(Some(branch(9, 10, 11)));  // d3
    nodes.push(Some(code(10, 7)));  // n8
    nodes.push(Some(Node::Virtual));  // n9, the exit
    nodes.push(Some(branch(12, 14, 13)));  // c1
    nodes.push(Some(code(13, 12)));  // n1
    nodes.push(Some(branch(14, 16, 15)));  // c2
    nodes.push(Some(code(15, u64::MAX)));  // n2, a sink
    nodes.push(Some(code(16, 17)));  // n3
    nodes.push(Some(branch(17, 12, 11)));  // c3
    let mut edges: Vec<(usize, usize)> = Vec::new();
    edges.push((0, 1));
    edges.push((1, 2));
    edges.push((1, 3));
    edges.push((3, 4));
    edges.push((2, 4));
    edges.push((2, 5));
    edges.push((4, 6));
    edges.push((5, 6));
    edges.push((6, 7));
    edges.push((7, 8));
    edges.push((7, 9));
    edges.push((8, 10));
    edges.push((8, 11));
    edges.push((9, 10));
    edges.push((9, 11));
    edges.push((10, 7));
    edges.push((0, 12));
    edges.push((12, 14));
    edges.push((12, 13));
    edges.push((13, 12));
    edges.push((14, 16));
    edges.push((14, 15));
    edges.push((16, 17));
    edges.push((17, 12));
    edges.push((17, 11));
    proof {
        assert(edges@ =~= seq![
            (0usize, 1usize),
            (1usize, 2usize),
            (1usize, 3usize),
            (3usize, 4usize),
            (2usize, 4usize),
            (2usize, 5usize),
            (4usize, 6usize),
            (5usize, 6usize),
            (6usize, 7usize),
            (7usize, 8usize),
            (7usize, 9usize),
            (8usize, 10usize),
            (8usize, 11usize),
            (9usize, 10usize),
            (9usize, 11usize),
            (10usize, 7usize),
            (0usize, 12usize),
            (12usize, 14usize),
            (12usize, 13usize),
            (13usize, 12usize),
            (14usize, 16usize),
            (14usize, 15usize),
            (16usize, 17usize),
            (17usize, 12usize),
            (17usize, 11usize),
        ]);
        assert(nodes@.len() == 18);
        assert forall|i: int| 0 <= i < 18 implies #[trigger] nodes@[i] is Some by {
        }
    }
    (0, 11, nodes, edges)
}

} // verus!
