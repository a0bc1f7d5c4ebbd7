use std::rc::Rc;

use restructure::ast::Node;
use restructure::cond::{Condition, Condition_};
use restructure::doms::{check_idoms, chain_member, DominatorTree};
use restructure::graph::Graph;
use restructure::Label;

fn code(i: u64, next: u64) -> Node {
    Node::Code { label: Label(i), id: i, next: Label(next) }
}

fn branch(i: u64, conseq: u64, alt: u64) -> Node {
    let test: Condition = Rc::new(Condition_::Base(i));
    Node::Conditional { label: Label(i), test, conseq: Label(conseq), alt: Label(alt) }
}

/// A, then a two-way split into B and C, rejoining at the exit D.
fn diamond() -> Graph {
    let nodes = vec![
        Some(branch(0, 1, 2)),
        Some(code(1, 3)),
        Some(code(2, 3)),
        Some(Node::Virtual),
    ];
    let edges = vec![(0, 1), (0, 2), (1, 3), (2, 3)];
    Graph::new(nodes, edges, 0, 3).expect("the diamond is well formed")
}

/// A and B forming a two-node loop, with B stepping out to the exit E.
fn self_loop() -> Graph {
    let nodes = vec![
        Some(code(0, 1)),
        Some(branch(1, 0, 2)),
        Some(Node::Virtual),
    ];
    let edges = vec![(0, 1), (1, 0), (1, 2)];
    Graph::new(nodes, edges, 0, 2).expect("the loop graph is well formed")
}

#[test]
fn construction_rejects_bad_root() {
    let nodes = vec![Some(code(0, 1)), Some(Node::Virtual)];
    let edges = vec![(0, 1)];
    assert!(Graph::new(nodes, edges, 9, 1).is_none());
}

#[test]
fn construction_rejects_edge_to_missing_node() {
    let nodes = vec![Some(code(0, 1)), None, Some(Node::Virtual)];
    let edges = vec![(0, 1)];
    assert!(Graph::new(nodes, edges, 0, 2).is_none());
}

#[test]
fn diamond_dominators() {
    let g = diamond();
    assert_eq!(g.dominators, vec![None, Some(0), Some(0), Some(0)]);
}

#[test]
fn diamond_post_dominators() {
    let g = diamond();
    assert_eq!(g.post_dominators, vec![Some(3), Some(3), Some(3), None]);
}

#[test]
fn diamond_dominator_tree_queries() {
    let g = diamond();
    assert_eq!(g.dominator_tree.find(3), Some(3));
    assert_eq!(g.dominator_tree.find(0), Some(0));
    assert_eq!(g.dominator_tree.find(9), None);
    let mut ch = g.dominator_tree.all_children(0);
    ch.sort();
    assert_eq!(ch, vec![1, 2, 3]);
    assert!(g.dominator_tree.all_children(1).is_empty());
}

#[test]
fn diamond_post_dominance_queries() {
    let g = diamond();
    assert!(g.post_dominates(3, &vec![0, 1, 2, 3]));
    assert!(!g.post_dominates(1, &vec![2]));
    // A node post-dominates itself.
    assert!(g.post_dominates(1, &vec![1]));
}

#[test]
fn diamond_has_no_loops() {
    let g = diamond();
    assert!(g.loop_heads.is_empty());
    assert!(g.back_edges.is_empty());
}

#[test]
fn loop_head_and_back_edge_agree() {
    let g = self_loop();
    assert_eq!(g.loop_heads, vec![0]);
    assert_eq!(g.back_edges, vec![(1, 0)]);
}

#[test]
fn views_hide_back_edges() {
    let g = self_loop();
    // The back edge B -> A is hidden from B's successors and from A's
    // predecessors, in both directions of the view.
    let succs = g.successors(1);
    assert!(!succs.contains(&0));
    assert!(succs.contains(&2));
    let preds = g.predecessors(0);
    assert!(!preds.contains(&1));
    assert!(preds.is_empty());
}

#[test]
fn update_shrinks_node_count() {
    let mut g = diamond();
    assert_eq!(g.node_count(), 4);
    g.update(0, &vec![1, 2], Node::Virtual, &vec![3]);
    assert_eq!(g.node_count(), 2);
    assert!(g.recompute_info());
    let succs = g.successors(0);
    assert_eq!(succs, vec![3]);
}

#[test]
fn postorder_finishes_children_first() {
    let g = diamond();
    let order = g.dfs_post_order();
    assert_eq!(order.len(), 4);
    // The root is finished last; the join point is finished before the
    // branch that reaches it.
    assert_eq!(*order.last().unwrap(), 0);
    assert_eq!(order[0], 3);
}

#[test]
fn dominator_relation_validation() {
    // A sound relation over four slots rooted at zero.
    let good = vec![None, Some(0), Some(1), Some(0)];
    assert!(check_idoms(&good, 0));
    // The root may not have a dominator.
    assert!(!check_idoms(&vec![Some(1), None], 0));
    // An entry must stay inside the arena.
    assert!(!check_idoms(&vec![None, Some(9)], 0));
    // A chain that circles without reaching the root is refused.
    assert!(!check_idoms(&vec![None, Some(2), Some(1)], 0));
    assert!(DominatorTree::from_dominators(&vec![None, Some(2), Some(1)], 0).is_none());
}

#[test]
fn chain_walks_respect_fuel_and_membership() {
    let doms = vec![None, Some(0), Some(1), Some(2)];
    assert!(chain_member(&doms, 0, 3));
    assert!(chain_member(&doms, 2, 3));
    assert!(!chain_member(&doms, 3, 3));
    assert!(!chain_member(&doms, 3, 0));
}

#[test]
fn label_accessors() {
    assert_eq!(Label::dummy(), Label(u64::MAX));
    assert_eq!(Node::Virtual.label(), Label::dummy());
    assert_eq!(code(4, 5).label(), Label(4));
    assert_eq!(branch(6, 7, 8).label(), Label(6));
    assert!(code(1, 2).is_code());
    assert!(!branch(1, 2, 3).is_code());
    assert!(!Node::Virtual.is_code());
}
