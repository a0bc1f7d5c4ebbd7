use std::rc::Rc;

use restructure::ast::{Node, Structured};
use restructure::cond::{Condition, Condition_};
use restructure::engine::{get_end_nodes, get_end_successor_nodes, get_sub_region_end_nodes, reduce, structure_acyclic};
use restructure::fixture::test_graph;
use restructure::graph::Graph;
use restructure::Label;

fn code(i: u64, next: u64) -> Node {
    Node::Code { label: Label(i), id: i, next: Label(next) }
}

fn branch(i: u64, conseq: u64, alt: u64) -> Node {
    let test: Condition = Rc::new(Condition_::Base(i));
    Node::Conditional { label: Label(i), test, conseq: Label(conseq), alt: Label(alt) }
}

fn diamond() -> Graph {
    let nodes = vec![
        Some(branch(0, 1, 2)),
        Some(code(1, 3)),
        Some(code(2, 3)),
        Some(Node::Virtual),
    ];
    let edges = vec![(0, 1), (0, 2), (1, 3), (2, 3)];
    Graph::new(nodes, edges, 0, 3).expect("the diamond is well formed")
}

fn self_loop() -> Graph {
    let nodes = vec![
        Some(code(0, 1)),
        Some(branch(1, 0, 2)),
        Some(Node::Virtual),
    ];
    let edges = vec![(0, 1), (1, 0), (1, 2)];
    Graph::new(nodes, edges, 0, 2).expect("the loop graph is well formed")
}

fn dbg<T: std::fmt::Debug>(v: &T) -> String {
    format!("{:?}", v)
}

#[test]
fn exit_candidates_are_the_in_region_sink() {
    let g = diamond();
    // Both branch blocks reach the join point, which sits in the region
    // and has no way onward, so it is the one exit candidate.
    assert_eq!(get_end_successor_nodes(&g, &vec![1, 2, 3, 0]), vec![3]);
    // Without the join point in the region, it is still the one candidate:
    // a node one edge outside.
    assert_eq!(get_end_successor_nodes(&g, &vec![1, 2, 0]), vec![3]);
}

#[test]
fn diamond_exit_set_is_the_join_point() {
    let g = diamond();
    let region = vec![1, 2, 3, 0];
    let end = get_end_nodes(&g, &vec![3, 1, 2], 0, &region).expect("a unique exit");
    assert_eq!(end, vec![3]);
}

#[test]
fn diamond_collapse_builds_an_if() {
    let g = diamond();
    let region = vec![1, 2, 3, 0];
    let (removed, payload, succs) =
        structure_acyclic(&g, 0, &region, &vec![3]).expect("the diamond collapses");
    let mut removed_sorted = removed.clone();
    removed_sorted.sort();
    assert_eq!(removed_sorted, vec![1, 2, 3]);
    assert!(succs.is_empty());
    let test: Condition = Rc::new(Condition_::Base(0));
    let expected = Node::Structured(
        Label(0),
        Structured::Sequence(vec![Structured::If {
            test,
            conseq: Box::new(Structured::CodeBlock(1)),
            alt: Some(Box::new(Structured::CodeBlock(2))),
        }]),
    );
    assert_eq!(dbg(&payload), dbg(&expected));
}

#[test]
fn diamond_reduces_to_one_node() {
    let mut g = diamond();
    assert_eq!(reduce(&mut g), Ok(()));
    assert_eq!(g.node_count(), 1);
    assert!(g.edges.is_empty());
    let payload = g.nodes[0].as_ref().expect("the entry absorbs the graph");
    let test: Condition = Rc::new(Condition_::Base(0));
    let expected = Node::Structured(
        Label(0),
        Structured::Sequence(vec![Structured::If {
            test,
            conseq: Box::new(Structured::CodeBlock(1)),
            alt: Some(Box::new(Structured::CodeBlock(2))),
        }]),
    );
    assert_eq!(dbg(payload), dbg(&expected));
}

#[test]
fn self_loop_becomes_a_loop_with_a_break() {
    let mut g = self_loop();
    assert_eq!(reduce(&mut g), Ok(()));
    assert_eq!(g.node_count(), 1);
    let payload = dbg(g.nodes[0].as_ref().expect("the entry absorbs the graph"));
    // The cyclic region is wrapped as a loop around the entry's body, with
    // a break standing for the step out toward the exit.
    assert!(payload.contains("Loop"));
    assert!(payload.contains("Break"));
    assert!(payload.contains("CodeBlock(0)"));
}

#[test]
fn sub_region_search_stops_outside_the_region() {
    let g = diamond();
    // The newest visited node lies outside the region, so the fallback
    // gives up at once.
    assert_eq!(get_sub_region_end_nodes(&g, &vec![1], 0, &vec![0]), None);
}

#[test]
fn sub_region_search_finds_the_join_point() {
    let g = diamond();
    // Growing the candidate set from the head, the join point is the first
    // node that post-dominates it, and it has a single outgoing edge count,
    // so it is the exit set itself.
    let r = get_sub_region_end_nodes(&g, &vec![3, 1, 2], 0, &vec![1, 2, 3, 0]);
    assert_eq!(r, Some(vec![3]));
}

#[test]
fn conditional_loop_head_becomes_a_while_loop() {
    // A straight entry block, a guarded loop head, a latch going back to
    // it, and the exit.
    let nodes = vec![
        Some(code(0, 1)),
        Some(branch(1, 2, 3)),
        Some(code(2, 1)),
        Some(Node::Virtual),
    ];
    let edges = vec![(0, 1), (1, 2), (2, 1), (1, 3)];
    let mut g = Graph::new(nodes, edges, 0, 3).expect("the guarded loop is well formed");
    assert_eq!(reduce(&mut g), Ok(()));
    assert_eq!(g.node_count(), 1);
    let payload = g.nodes[0].as_ref().expect("the entry absorbs the graph");
    let test: Condition = Rc::new(Condition_::Base(1));
    let expected = Node::Structured(
        Label(0),
        Structured::Sequence(vec![
            Structured::CodeBlock(0),
            Structured::WhileLoop {
                test,
                body: Box::new(Structured::Sequence(vec![
                    Structured::CodeBlock(2),
                    Structured::Break,
                ])),
            },
        ]),
    );
    assert_eq!(dbg(payload), dbg(&expected));
}

#[test]
fn fixture_reduces_to_one_node() {
    let (root, exit, nodes, edges) = test_graph();
    let mut g = Graph::new(nodes, edges, root, exit).expect("the fixture is well formed");
    assert_eq!(g.node_count(), 18);
    // The outer reduction loop terminates with exactly one node and no
    // edges left, the irreducible region included.
    assert_eq!(reduce(&mut g), Ok(()));
    assert_eq!(g.node_count(), 1);
    assert!(g.edges.is_empty());
}
