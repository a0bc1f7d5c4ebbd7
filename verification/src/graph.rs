//! The mutable control-flow graph with its derived analyses: dominators,
//! post-dominators over the reversed graph, the dominator tree, loop heads
//! and back edges, back-edge-blind neighbour views, and the region-collapse
//! primitive the structuring engine drives.

use vstd::prelude::*;

use crate::ast::Node;
use crate::doms::{doms_wf, idoms_of, in_chain, petgraph_idoms, DominatorTree};

verus! {

broadcast use vstd::std_specs::vec::group_vec_axioms, vstd::seq::group_seq_axioms;

/// The mutable control-flow graph together with the analyses derived from
/// it. Nodes live in an arena of stable indices; a removed node leaves an
/// empty slot behind, so removal never renumbers the others. The derived
/// caches are rebuilt wholesale by `recompute_info`; a mutation leaves them
/// stale until then, and every query states which of the two states it
/// needs.
#[derive(Debug)]
pub struct Graph {
    pub nodes: Vec<Option<Node>>,
    pub edges: Vec<(usize, usize)>,
    pub root: usize,
    pub return_: usize,
    pub dominators: Vec<Option<usize>>,
    pub dominator_tree: DominatorTree,
    pub post_dominators: Vec<Option<usize>>,
    pub loop_heads: Vec<usize>,
    pub back_edges: Vec<(usize, usize)>,
}

/// How many nodes are still present in the arena.
pub open spec fn live_count(s: Seq<Option<Node>>) -> nat
    decreases s.len(),
{
    if s.len() == 0 {
        0
    } else {
        live_count(s.drop_last()) + if s.last() is Some {
            1nat
        } else {
            0nat
        }
    }
}

impl Graph {
    /// Node `i` is present in the arena.
    pub open spec fn live(&self, i: int) -> bool {
        0 <= i < self.nodes@.len() && self.nodes@[i] is Some
    }

    /// The structural part of well-formedness: the two distinguished nodes
    /// are present and every edge joins present nodes.
    pub open spec fn wf(&self) -> bool {
        &&& self.live(self.root as int)
        &&& self.return_ < self.nodes@.len()
        &&& forall|i: int|
            0 <= i < self.edges@.len() ==> self.live((#[trigger] self.edges@[i]).0 as int)
                && self.live(self.edges@[i].1 as int)
    }

    /// The derived caches agree with the current graph. This holds after
    /// `new` and after `recompute_info`, and is forfeited by `update` until
    /// the next recomputation.
    pub open spec fn caches_wf(&self) -> bool {
        &&& self.dominators@.len() == self.nodes@.len()
        &&& doms_wf(self.dominators@, self.root as int)
        &&& self.dominator_tree.doms@ == self.dominators@
        &&& self.dominator_tree.root == self.root
        &&& self.post_dominators@.len() == self.nodes@.len()
        &&& doms_wf(self.post_dominators@, self.return_ as int)
        &&& forall|p: (usize, usize)| #[trigger]
            self.back_edges@.contains(p) ==> self.edges@.contains(p)
        &&& heads_match(self.loop_heads@, self.back_edges@)
    }

    /// Non-strict post-dominance as recorded in the cache: every path from
    /// `b` to the exit passes through `a`.
    pub open spec fn spec_post_dominates(&self, a: int, b: int) -> bool {
        a == b || in_chain(self.post_dominators@, a, b, self.post_dominators@.len() as nat)
    }

    /// How many nodes the graph still holds.
    pub fn node_count(&self) -> (r: usize)
        ensures
            r == live_count(self.nodes@),
    {
        let mut count: usize = 0;
        let mut i: usize = 0;
        proof {
            assert(self.nodes@.subrange(0, 0) =~= Seq::<Option<Node>>::empty());
        }
        while i < self.nodes.len()
            invariant
                i <= self.nodes@.len(),
                count == live_count(self.nodes@.subrange(0, i as int)),
                count <= i,
            decreases self.nodes@.len() - i,
        {
            proof {
                let pre = self.nodes@.subrange(0, i as int);
                let post = self.nodes@.subrange(0, i + 1 as int);
                assert(post.drop_last() =~= pre);
                assert(post.last() == self.nodes@[i as int]);
            }
            if self.nodes[i].is_some() {
                count = count + 1;
            }
            i = i + 1;
        }
        proof {
            assert(self.nodes@.subrange(0, self.nodes@.len() as int) =~= self.nodes@);
        }
        count
    }

    /// The successors of `u` in the back-edge-blind view: targets of real
    /// edges from `u`, except those reached through a recorded back edge.
    pub fn successors(&self, u: usize) -> (r: Vec<usize>)
        ensures
            forall|v: usize| #[trigger]
                r@.contains(v) <==> (self.edges@.contains((u, v)) && !self.back_edges@.contains(
                    (u, v),
                )),
    {
        let mut out: Vec<usize> = Vec::new();
        let mut i: usize = 0;
        while i < self.edges.len()
            invariant
                i <= self.edges@.len(),
                forall|v: usize| #[trigger]
                    out@.contains(v) <==> (exists|j: int|
                        0 <= j < i && self.edges@[j] == (u, v) && !self.back_edges@.contains(
                            (u, v),
                        )),
            decreases self.edges@.len() - i,
        {
            let (a, b) = self.edges[i];
            let ghost before = out@;
            if a == u && !contains_pair(&self.back_edges, u, b) && !contains_usize(&out, b) {
                out.push(b);
                proof {
                    assert forall|v: usize| #[trigger] out@.contains(v) implies (exists|j: int|
                        0 <= j < i + 1 && self.edges@[j] == (u, v) && !self.back_edges@.contains(
                            (u, v),
                        )) by {
                        vstd::seq_lib::lemma_seq_contains_after_push(before, b, v);
                        if v == b {
                            assert(self.edges@[i as int] == (u, v));
                        } else {
                            let j = choose|j: int|
                                0 <= j < i && self.edges@[j] == (u, v) && !self.back_edges@.contains(
                                    (u, v),
                                );
                            assert(0 <= j < i + 1 && self.edges@[j] == (u, v));
                        }
                    }
                    assert forall|v: usize|
                        (exists|j: int|
                            0 <= j < i + 1 && self.edges@[j] == (u, v)
                                && !self.back_edges@.contains((u, v))) implies #[trigger] out@
                        .contains(v) by {
                        vstd::seq_lib::lemma_seq_contains_after_push(before, b, v);
                        let j = choose|j: int|
                            0 <= j < i + 1 && self.edges@[j] == (u, v) && !self.back_edges@.contains(
                                (u, v),
                            );
                        if j < i {
                            assert(before.contains(v));
                        }
                    }
                }
            } else {
                proof {
                    assert forall|v: usize| #[trigger] out@.contains(v) implies (exists|j: int|
                        0 <= j < i + 1 && self.edges@[j] == (u, v) && !self.back_edges@.contains(
                            (u, v),
                        )) by {
                        let j = choose|j: int|
                            0 <= j < i && self.edges@[j] == (u, v) && !self.back_edges@.contains(
                                (u, v),
                            );
                        assert(0 <= j < i + 1 && self.edges@[j] == (u, v));
                    }
                    assert forall|v: usize|
                        (exists|j: int|
                            0 <= j < i + 1 && self.edges@[j] == (u, v)
                                && !self.back_edges@.contains((u, v))) implies #[trigger] out@
                        .contains(v) by {
                        let j = choose|j: int|
                            0 <= j < i + 1 && self.edges@[j] == (u, v) && !self.back_edges@.contains(
                                (u, v),
                            );
                        if j == i {
                            assert(self.edges@[i as int] == (u, v));
                            assert(a == u && b == v);
                            if contains_pair_spec(self.back_edges@, u, b) {
                            } else {
                                assert(out@.contains(b));
                            }
                        }
                    }
                }
            }
            i = i + 1;
        }
        proof {
            assert forall|v: usize| #[trigger]
                out@.contains(v) <==> (self.edges@.contains((u, v)) && !self.back_edges@.contains(
                    (u, v),
                )) by {
                if self.edges@.contains((u, v)) && !self.back_edges@.contains((u, v)) {
                    let j = choose|j: int|
                        0 <= j < self.edges@.len() && self.edges@[j] == (u, v);
                    assert(0 <= j < self.edges@.len() && self.edges@[j] == (u, v)
                        && !self.back_edges@.contains((u, v)));
                }
                if out@.contains(v) {
                    let j = choose|j: int|
                        0 <= j < self.edges@.len() && self.edges@[j] == (u, v)
                            && !self.back_edges@.contains((u, v));
                    assert(self.edges@.contains((u, v)));
                }
            }
        }
        out
    }

    /// The predecessors of `v` in the back-edge-blind view: sources of real
    /// edges into `v`, except those arriving over a recorded back edge.
    pub fn predecessors(&self, v: usize) -> (r: Vec<usize>)
        ensures
            forall|u: usize| #[trigger]
                r@.contains(u) <==> (self.edges@.contains((u, v)) && !self.back_edges@.contains(
                    (u, v),
                )),
    {
        let mut out: Vec<usize> = Vec::new();
        let mut i: usize = 0;
        while i < self.edges.len()
            invariant
                i <= self.edges@.len(),
                forall|u: usize| #[trigger]
                    out@.contains(u) <==> (exists|j: int|
                        0 <= j < i && self.edges@[j] == (u, v) && !self.back_edges@.contains(
                            (u, v),
                        )),
            decreases self.edges@.len() - i,
        {
            let (a, b) = self.edges[i];
            let ghost before = out@;
            if b == v && !contains_pair(&self.back_edges, a, v) && !contains_usize(&out, a) {
                out.push(a);
                proof {
                    assert forall|u: usize| #[trigger] out@.contains(u) implies (exists|j: int|
                        0 <= j < i + 1 && self.edges@[j] == (u, v) && !self.back_edges@.contains(
                            (u, v),
                        )) by {
                        vstd::seq_lib::lemma_seq_contains_after_push(before, a, u);
                        if u == a {
                            assert(self.edges@[i as int] == (u, v));
                        } else {
                            let j = choose|j: int|
                                0 <= j < i && self.edges@[j] == (u, v) && !self.back_edges@.contains(
                                    (u, v),
                                );
                            assert(0 <= j < i + 1 && self.edges@[j] == (u, v));
                        }
                    }
                    assert forall|u: usize|
                        (exists|j: int|
                            0 <= j < i + 1 && self.edges@[j] == (u, v)
                                && !self.back_edges@.contains((u, v))) implies #[trigger] out@
                        .contains(u) by {
                        vstd::seq_lib::lemma_seq_contains_after_push(before, a, u);
                        let j = choose|j: int|
                            0 <= j < i + 1 && self.edges@[j] == (u, v) && !self.back_edges@.contains(
                                (u, v),
                            );
                        if j < i {
                            assert(before.contains(u));
                        }
                    }
                }
            } else {
                proof {
                    assert forall|u: usize| #[trigger] out@.contains(u) implies (exists|j: int|
                        0 <= j < i + 1 && self.edges@[j] == (u, v) && !self.back_edges@.contains(
                            (u, v),
                        )) by {
                        let j = choose|j: int|
                            0 <= j < i && self.edges@[j] == (u, v) && !self.back_edges@.contains(
                                (u, v),
                            );
                        assert(0 <= j < i + 1 && self.edges@[j] == (u, v));
                    }
                    assert forall|u: usize|
                        (exists|j: int|
                            0 <= j < i + 1 && self.edges@[j] == (u, v)
                                && !self.back_edges@.contains((u, v))) implies #[trigger] out@
                        .contains(u) by {
                        let j = choose|j: int|
                            0 <= j < i + 1 && self.edges@[j] == (u, v) && !self.back_edges@.contains(
                                (u, v),
                            );
                        if j == i {
                            assert(self.edges@[i as int] == (u, v));
                            assert(a == u && b == v);
                            if contains_pair_spec(self.back_edges@, u, v) {
                            } else {
                                assert(out@.contains(a));
                            }
                        }
                    }
                }
            }
            i = i + 1;
        }
        proof {
            assert forall|u: usize| #[trigger]
                out@.contains(u) <==> (self.edges@.contains((u, v)) && !self.back_edges@.contains(
                    (u, v),
                )) by {
                if self.edges@.contains((u, v)) && !self.back_edges@.contains((u, v)) {
                    let j = choose|j: int|
                        0 <= j < self.edges@.len() && self.edges@[j] == (u, v);
                    assert(0 <= j < self.edges@.len() && self.edges@[j] == (u, v)
                        && !self.back_edges@.contains((u, v)));
                }
                if out@.contains(u) {
                    let j = choose|j: int|
                        0 <= j < self.edges@.len() && self.edges@[j] == (u, v)
                            && !self.back_edges@.contains((u, v));
                    assert(self.edges@.contains((u, v)));
                }
            }
        }
        out
    }

    /// Whether `node` post-dominates every member of `region`, walking the
    /// cached post-dominator chains. A node post-dominates itself.
    pub fn post_dominates(&self, node: usize, region: &Vec<usize>) -> (r: bool)
        requires
            self.caches_wf(),
            forall|i: int| 0 <= i < region@.len() ==> #[trigger] region@[i] < self.nodes@.len(),
        ensures
            r == forall|i: int|
                0 <= i < region@.len() ==> self.spec_post_dominates(
                    node as int,
                    #[trigger] region@[i] as int,
                ),
    {
        let mut i: usize = 0;
        while i < region.len()
            invariant
                i <= region@.len(),
                self.caches_wf(),
                forall|j: int| 0 <= j < region@.len() ==> #[trigger] region@[j] < self.nodes@.len(),
                forall|j: int|
                    0 <= j < i ==> self.spec_post_dominates(node as int, #[trigger] region@[j] as int),
            decreases region@.len() - i,
        {
            let m = region[i];
            if m != node {
                if !crate::doms::chain_member(&self.post_dominators, node, m) {
                    return false;
                }
            }
            i = i + 1;
        }
        true
    }
}

/// A present node makes the live count positive.
pub proof fn lemma_live_count_pos(s: Seq<Option<Node>>, i: int)
    requires
        0 <= i < s.len(),
        s[i] is Some,
    ensures
        live_count(s) >= 1,
    decreases s.len(),
{
    if i == s.len() - 1 {
    } else {
        lemma_live_count_pos(s.drop_last(), i);
    }
}

/// Two distinct present nodes make the live count at least two.
pub proof fn lemma_live_count_two(s: Seq<Option<Node>>, i: int, j: int)
    requires
        0 <= i < j < s.len(),
        s[i] is Some,
        s[j] is Some,
    ensures
        live_count(s) >= 2,
    decreases s.len(),
{
    if j == s.len() - 1 {
        lemma_live_count_pos(s.drop_last(), i);
    } else {
        lemma_live_count_two(s.drop_last(), i, j);
    }
}

/// Setting or clearing one arena slot changes the live count by exactly the
/// difference the slot makes.
pub proof fn lemma_live_count_update(s: Seq<Option<Node>>, i: int, v: Option<Node>)
    requires
        0 <= i < s.len(),
    ensures
        live_count(s.update(i, v)) + (if s[i] is Some {
            1nat
        } else {
            0nat
        }) == live_count(s) + (if v is Some {
            1nat
        } else {
            0nat
        }),
    decreases s.len(),
{
    let t = s.update(i, v);
    if i == s.len() - 1 {
        assert(t.drop_last() =~= s.drop_last());
        assert(t.last() == v);
    } else {
        assert(t.drop_last() =~= s.drop_last().update(i, v));
        assert(t.last() == s.last());
        lemma_live_count_update(s.drop_last(), i, v);
    }
}

impl Graph {
    /// Collapse a region: remove every node of `to_remove` and its incident
    /// edges, replace the payload of `node`, and replace the outgoing edges
    /// of `node` by `successors`. The derived caches are left stale; call
    /// `recompute_info` before the next query. The node count drops by
    /// exactly the number of removed nodes.
    pub fn update(
        &mut self,
        node: usize,
        to_remove: &Vec<usize>,
        new_node: Node,
        successors: &Vec<usize>,
    )
        requires
            old(self).wf(),
            old(self).live(node as int),
            forall|x: usize| #[trigger] to_remove@.contains(x) ==> old(self).live(x as int) && x != node,
            forall|i: int, j: int| 0 <= i < j < to_remove@.len() ==> to_remove@[i] != to_remove@[j],
            !to_remove@.contains(old(self).root),
            forall|x: usize| #[trigger] successors@.contains(x) ==> old(self).live(x as int)
                && !to_remove@.contains(x),
        ensures
            final(self).wf(),
            final(self).nodes@.len() == old(self).nodes@.len(),
            final(self).root == old(self).root,
            final(self).return_ == old(self).return_,
            live_count(final(self).nodes@) + to_remove@.len() == live_count(old(self).nodes@),
            final(self).nodes@[node as int] == Some(new_node),
            forall|i: usize|
                i < old(self).nodes@.len() && i != node ==> final(self).nodes@[i as int] == (
                if to_remove@.contains(i) {
                    None::<Node>
                } else {
                    old(self).nodes@[i as int]
                }),
            forall|p: (usize, usize)| #[trigger]
                final(self).edges@.contains(p) <==> ((old(self).edges@.contains(p)
                    && !to_remove@.contains(p.0) && !to_remove@.contains(p.1) && p.0 != node) || (
                p.0 == node && successors@.contains(p.1))),
            final(self).dominators@ == old(self).dominators@,
            final(self).dominator_tree == old(self).dominator_tree,
            final(self).post_dominators@ == old(self).post_dominators@,
            final(self).loop_heads@ == old(self).loop_heads@,
            final(self).back_edges@ == old(self).back_edges@,
    {
        // The derived caches are deliberately left as they are: they are
        // stale from here until the next recomputation.
        // Remove the interior nodes.
        let mut k: usize = 0;
        while k < to_remove.len()
            invariant
                k <= to_remove@.len(),
                self.nodes@.len() == old(self).nodes@.len(),
                self.dominators == old(self).dominators,
                self.dominator_tree == old(self).dominator_tree,
                self.post_dominators == old(self).post_dominators,
                self.loop_heads == old(self).loop_heads,
                self.back_edges == old(self).back_edges,
                self.edges == old(self).edges,
                self.root == old(self).root,
                self.return_ == old(self).return_,
                node < self.nodes@.len(),
                forall|x: usize| #[trigger]
                    to_remove@.contains(x) ==> old(self).live(x as int) && x != node,
                forall|i: int, j: int|
                    0 <= i < j < to_remove@.len() ==> to_remove@[i] != to_remove@[j],
                forall|i: usize|
                    i < old(self).nodes@.len() ==> self.nodes@[i as int] == (
                    if to_remove@.subrange(0, k as int).contains(i) {
                        None::<Node>
                    } else {
                        old(self).nodes@[i as int]
                    }),
                live_count(self.nodes@) + k == live_count(old(self).nodes@),
            decreases to_remove@.len() - k,
        {
            let r = to_remove[k];
            let ghost pre = self.nodes@;
            proof {
                assert(to_remove@[k as int] == r);
                assert(to_remove@.contains(r));
                assert(old(self).live(r as int));
                assert(!to_remove@.subrange(0, k as int).contains(r)) by {
                    if to_remove@.subrange(0, k as int).contains(r) {
                        let j = choose|j: int|
                            0 <= j < k && to_remove@.subrange(0, k as int)[j] == r;
                        assert(to_remove@[j] == to_remove@[k as int]);
                    }
                }
                assert(pre[r as int] == old(self).nodes@[r as int]);
                assert(pre[r as int] is Some);
                lemma_live_count_update(pre, r as int, None);
            }
            self.nodes.set(r, None);
            proof {
                assert forall|i: usize| i < old(self).nodes@.len() implies self.nodes@[i as int]
                    == (if to_remove@.subrange(0, k + 1 as int).contains(i) {
                    None::<Node>
                } else {
                    old(self).nodes@[i as int]
                }) by {
                    let sub1 = to_remove@.subrange(0, k + 1 as int);
                    let sub0 = to_remove@.subrange(0, k as int);
                    assert(sub1 =~= sub0.push(r));
                    vstd::seq_lib::lemma_seq_contains_after_push(sub0, r, i);
                    if i == r {
                        assert(sub1.contains(i));
                        assert(self.nodes@[i as int] is None);
                    } else {
                        assert(self.nodes@[i as int] == pre[i as int]);
                        assert(sub1.contains(i) == sub0.contains(i));
                    }
                }
            }
            k = k + 1;
        }
        proof {
            assert(to_remove@.subrange(0, to_remove@.len() as int) =~= to_remove@);
        }
        // Replace the payload of the collapsed node.
        let ghost pre2 = self.nodes@;
        proof {
            assert(!to_remove@.contains(node));
            assert(pre2[node as int] == old(self).nodes@[node as int]);
            lemma_live_count_update(pre2, node as int, Some(new_node));
        }
        self.nodes.set(node, Some(new_node));
        // Drop every edge that touched a removed node and every outgoing
        // edge of the collapsed node, then attach the new outgoing edges.
        let mut kept: Vec<(usize, usize)> = Vec::new();
        let mut e: usize = 0;
        while e < self.edges.len()
            invariant
                e <= self.edges@.len(),
                self.dominators == old(self).dominators,
                self.dominator_tree == old(self).dominator_tree,
                self.post_dominators == old(self).post_dominators,
                self.loop_heads == old(self).loop_heads,
                self.back_edges == old(self).back_edges,
                self.edges == old(self).edges,
                forall|p: (usize, usize)| #[trigger]
                    kept@.contains(p) <==> (exists|j: int|
                        0 <= j < e && self.edges@[j] == p && !to_remove@.contains(p.0)
                            && !to_remove@.contains(p.1) && p.0 != node),
            decreases self.edges@.len() - e,
        {
            let (a, b) = self.edges[e];
            let ghost before = kept@;
            if a != node && !contains_usize(to_remove, a) && !contains_usize(to_remove, b) {
                kept.push((a, b));
                proof {
                    assert forall|p: (usize, usize)| #[trigger] kept@.contains(p) implies (exists|
                        j: int,
                    |
                        0 <= j < e + 1 && self.edges@[j] == p && !to_remove@.contains(p.0)
                            && !to_remove@.contains(p.1) && p.0 != node) by {
                        vstd::seq_lib::lemma_seq_contains_after_push(before, (a, b), p);
                        if p == (a, b) {
                            assert(self.edges@[e as int] == p);
                        } else {
                            let j = choose|j: int|
                                0 <= j < e && self.edges@[j] == p && !to_remove@.contains(p.0)
                                    && !to_remove@.contains(p.1) && p.0 != node;
                            assert(0 <= j < e + 1 && self.edges@[j] == p);
                        }
                    }
                    assert forall|p: (usize, usize)|
                        (exists|j: int|
                            0 <= j < e + 1 && self.edges@[j] == p && !to_remove@.contains(p.0)
                                && !to_remove@.contains(p.1) && p.0 != node) implies #[trigger] kept@
                        .contains(p) by {
                        vstd::seq_lib::lemma_seq_contains_after_push(before, (a, b), p);
                        let j = choose|j: int|
                            0 <= j < e + 1 && self.edges@[j] == p && !to_remove@.contains(p.0)
                                && !to_remove@.contains(p.1) && p.0 != node;
                        if j < e {
                            assert(before.contains(p));
                        }
                    }
                }
            } else {
                proof {
                    assert forall|p: (usize, usize)|
                        (exists|j: int|
                            0 <= j < e + 1 && self.edges@[j] == p && !to_remove@.contains(p.0)
                                && !to_remove@.contains(p.1) && p.0 != node) implies #[trigger] kept@
                        .contains(p) by {
                        let j = choose|j: int|
                            0 <= j < e + 1 && self.edges@[j] == p && !to_remove@.contains(p.0)
                                && !to_remove@.contains(p.1) && p.0 != node;
                        if j == e {
                            assert(self.edges@[e as int] == (a, b));
                            assert(false);
                        }
                    }
                    assert forall|p: (usize, usize)| #[trigger] kept@.contains(p) implies (exists|
                        j: int,
                    |
                        0 <= j < e + 1 && self.edges@[j] == p && !to_remove@.contains(p.0)
                            && !to_remove@.contains(p.1) && p.0 != node) by {
                        let j = choose|j: int|
                            0 <= j < e && self.edges@[j] == p && !to_remove@.contains(p.0)
                                && !to_remove@.contains(p.1) && p.0 != node;
                        assert(0 <= j < e + 1 && self.edges@[j] == p);
                    }
                }
            }
            e = e + 1;
        }
        let mut s: usize = 0;
        while s < successors.len()
            invariant
                s <= successors@.len(),
                self.dominators == old(self).dominators,
                self.dominator_tree == old(self).dominator_tree,
                self.post_dominators == old(self).post_dominators,
                self.loop_heads == old(self).loop_heads,
                self.back_edges == old(self).back_edges,
                forall|p: (usize, usize)| #[trigger]
                    kept@.contains(p) <==> ((exists|j: int|
                        0 <= j < old(self).edges@.len() && old(self).edges@[j] == p
                            && !to_remove@.contains(p.0) && !to_remove@.contains(p.1) && p.0
                            != node) || (p.0 == node && exists|j: int|
                        0 <= j < s && successors@[j] == p.1)),
            decreases successors@.len() - s,
        {
            let t = successors[s];
            let ghost before = kept@;
            kept.push((node, t));
            proof {
                assert forall|p: (usize, usize)| #[trigger] kept@.contains(p) <==> ((exists|j: int|
                    0 <= j < old(self).edges@.len() && old(self).edges@[j] == p
                        && !to_remove@.contains(p.0) && !to_remove@.contains(p.1) && p.0 != node)
                    || (p.0 == node && exists|j: int| 0 <= j < s + 1 && successors@[j] == p.1)) by {
                    vstd::seq_lib::lemma_seq_contains_after_push(before, (node, t), p);
                    if p == (node, t) {
                        assert(successors@[s as int] == p.1);
                    } else {
                        if p.0 == node && exists|j: int| 0 <= j < s + 1 && successors@[j] == p.1 {
                            let j = choose|j: int| 0 <= j < s + 1 && successors@[j] == p.1;
                            if j == s {
                                assert(p == (node, t));
                            }
                        }
                    }
                }
            }
            s = s + 1;
        }
        self.edges = kept;
        proof {
            assert forall|p: (usize, usize)| #[trigger]
                self.edges@.contains(p) <==> ((old(self).edges@.contains(p)
                    && !to_remove@.contains(p.0) && !to_remove@.contains(p.1) && p.0 != node) || (
                p.0 == node && successors@.contains(p.1))) by {
                if old(self).edges@.contains(p) && !to_remove@.contains(p.0) && !to_remove@.contains(
                    p.1,
                ) && p.0 != node {
                    let j = choose|j: int|
                        0 <= j < old(self).edges@.len() && old(self).edges@[j] == p;
                    assert(0 <= j < old(self).edges@.len() && old(self).edges@[j] == p
                        && !to_remove@.contains(p.0) && !to_remove@.contains(p.1) && p.0 != node);
                }
                if p.0 == node && successors@.contains(p.1) {
                    let j = choose|j: int|
                        0 <= j < successors@.len() && successors@[j] == p.1;
                    assert(0 <= j < successors@.len() && successors@[j] == p.1);
                }
                if self.edges@.contains(p) {
                    if !(p.0 == node && exists|j: int|
                        0 <= j < successors@.len() && successors@[j] == p.1) {
                        let j = choose|j: int|
                            0 <= j < old(self).edges@.len() && old(self).edges@[j] == p
                                && !to_remove@.contains(p.0) && !to_remove@.contains(p.1) && p.0
                                != node;
                        assert(old(self).edges@.contains(p));
                    }
                }
            }
            assert forall|i: int|
                0 <= i < self.edges@.len() implies self.live(
                (#[trigger] self.edges@[i]).0 as int,
            ) && self.live(self.edges@[i].1 as int) by {
                let p = self.edges@[i];
                assert(self.edges@.contains(p));
                if old(self).edges@.contains(p) && !to_remove@.contains(p.0) && !to_remove@.contains(
                    p.1,
                ) && p.0 != node {
                    let j = choose|j: int|
                        0 <= j < old(self).edges@.len() && old(self).edges@[j] == p;
                    assert(old(self).live(p.0 as int) && old(self).live(p.1 as int));
                }
            }
            assert(!to_remove@.contains(self.root));
        }
    }
}

/// The agreement between the two loop caches: a node is a loop head exactly
/// when some recorded back edge targets it.
pub open spec fn heads_match(lh: Seq<usize>, be: Seq<(usize, usize)>) -> bool {
    forall|v: usize| #[trigger] lh.contains(v) <==> exists|u: usize| be.contains((u, v))
}

/// The arena flags at the start of a traversal: only the root is marked.
pub open spec fn init_mark(n: int, root: int) -> Seq<bool> {
    Seq::new(n as nat, |i: int| i == root)
}

/// The exact back-edge search, mirrored at the specification level: the
/// depth-first walk of rule 4.3a. From `node`, with the root-to-`node` path
/// in `path`, the edges are scanned in list order; an edge from `node` to a
/// node earlier on the path (other than `node` itself) records a back edge,
/// once; an edge to an unvisited node descends first. The result is the
/// final visited flags and the recorded back edges.
pub open spec fn loop_dfs(
    edges: Seq<(usize, usize)>,
    n: int,
    node: usize,
    fuel: nat,
    visited: Seq<bool>,
    path: Seq<usize>,
    be: Seq<(usize, usize)>,
) -> (Seq<bool>, Seq<(usize, usize)>)
    decreases fuel, 1int, 0int,
{
    if fuel == 0 {
        (visited, be)
    } else {
        loop_dfs_edges(edges, n, node, fuel, 0, visited, path.push(node), be)
    }
}

/// The edge scan of `loop_dfs`, from list position `j` on; `path` already
/// ends in `node`.
pub open spec fn loop_dfs_edges(
    edges: Seq<(usize, usize)>,
    n: int,
    node: usize,
    fuel: nat,
    j: int,
    visited: Seq<bool>,
    path: Seq<usize>,
    be: Seq<(usize, usize)>,
) -> (Seq<bool>, Seq<(usize, usize)>)
    decreases fuel, 0int, edges.len() - j,
{
    if fuel == 0 || j < 0 || j >= edges.len() {
        (visited, be)
    } else {
        let a = edges[j].0;
        let b = edges[j].1;
        if a == node {
            let be1 = if b != node && path.contains(b) && !be.contains((node, b)) {
                be.push((node, b))
            } else {
                be
            };
            if 0 <= b < visited.len() && !visited[b as int] {
                let st = loop_dfs(
                    edges,
                    n,
                    b,
                    (fuel - 1) as nat,
                    visited.update(b as int, true),
                    path,
                    be1,
                );
                loop_dfs_edges(edges, n, node, fuel, j + 1, st.0, path, st.1)
            } else {
                loop_dfs_edges(edges, n, node, fuel, j + 1, visited, path, be1)
            }
        } else {
            loop_dfs_edges(edges, n, node, fuel, j + 1, visited, path, be)
        }
    }
}

/// One frame of the depth-first search for back edges: an edge from the
/// current node to a node earlier on the root-to-node path is a back edge,
/// and its target a loop head. The caller has already marked `node` visited.
fn dfs_back_edges(
    edges: &Vec<(usize, usize)>,
    n: usize,
    node: usize,
    fuel: usize,
    visited: &mut Vec<bool>,
    path: &mut Vec<usize>,
    lh: &mut Vec<usize>,
    be: &mut Vec<(usize, usize)>,
)
    requires
        node < n,
        old(visited)@.len() == n,
        old(visited)@[node as int],
        forall|i: int|
            0 <= i < edges@.len() ==> (#[trigger] edges@[i]).0 < n && edges@[i].1 < n,
        heads_match(old(lh)@, old(be)@),
        forall|p: (usize, usize)| #[trigger] old(be)@.contains(p) ==> edges@.contains(p),
    ensures
        final(visited)@.len() == n,
        forall|i: int| 0 <= i < n ==> (old(visited)@[i] ==> #[trigger] final(visited)@[i]),
        final(path)@ == old(path)@,
        heads_match(final(lh)@, final(be)@),
        forall|p: (usize, usize)| #[trigger] final(be)@.contains(p) ==> edges@.contains(p),
        final(visited)@ == loop_dfs(
            edges@,
            n as int,
            node,
            fuel as nat,
            old(visited)@,
            old(path)@,
            old(be)@,
        ).0,
        final(be)@ == loop_dfs(
            edges@,
            n as int,
            node,
            fuel as nat,
            old(visited)@,
            old(path)@,
            old(be)@,
        ).1,
    decreases fuel,
{
    if fuel == 0 {
        return ;
    }
    let ghost entry_visited = visited@;
    let ghost target = loop_dfs(edges@, n as int, node, fuel as nat, visited@, path@, be@);
    proof {
        assert(target == loop_dfs_edges(
            edges@,
            n as int,
            node,
            fuel as nat,
            0,
            visited@,
            path@.push(node),
            be@,
        ));
    }
    path.push(node);
    let mut j: usize = 0;
    while j < edges.len()
        invariant
            j <= edges@.len(),
            node < n,
            fuel >= 1,
            visited@.len() == n,
            entry_visited.len() == n,
            forall|i: int| 0 <= i < n ==> (entry_visited[i] ==> #[trigger] visited@[i]),
            path@ == old(path)@.push(node),
            forall|i: int|
                0 <= i < edges@.len() ==> (#[trigger] edges@[i]).0 < n && edges@[i].1 < n,
            heads_match(lh@, be@),
            forall|p: (usize, usize)| #[trigger] be@.contains(p) ==> edges@.contains(p),
            target == loop_dfs_edges(
                edges@,
                n as int,
                node,
                fuel as nat,
                j as int,
                visited@,
                path@,
                be@,
            ),
        decreases edges@.len() - j,
    {
        let ghost vis_pre = visited@;
        let ghost be_pre = be@;
        let (a, b) = edges[j];
        if a == node {
            proof {
                assert(edges@[j as int] == (a, b));
                assert(edges@.contains((node, b)));
            }
            // Back-edge test: the target sits earlier on the current path.
            if b != node && contains_usize(path, b) {
                if !contains_pair(be, node, b) {
                    let ghost be0 = be@;
                    let ghost lh0 = lh@;
                    be.push((node, b));
                    if !contains_usize(lh, b) {
                        lh.push(b);
                    }
                    proof {
                        assert forall|v: usize| #[trigger]
                            lh@.contains(v) <==> exists|u: usize| be@.contains((u, v)) by {
                            vstd::seq_lib::lemma_seq_contains_after_push(be0, (node, b), (node, v));
                            if v == b {
                                assert(be@.contains((node, b)));
                                if lh@ == lh0.push(b) {
                                    vstd::seq_lib::lemma_seq_contains_after_push(lh0, b, v);
                                } else {
                                    assert(lh@.contains(b));
                                }
                            } else {
                                assert(lh@.contains(v) == lh0.contains(v)) by {
                                    if lh@ == lh0.push(b) {
                                        vstd::seq_lib::lemma_seq_contains_after_push(lh0, b, v);
                                    }
                                }
                                assert((exists|u: usize| be@.contains((u, v))) == (exists|u: usize|
                                    be0.contains((u, v)))) by {
                                    if exists|u: usize| be@.contains((u, v)) {
                                        let u = choose|u: usize| be@.contains((u, v));
                                        vstd::seq_lib::lemma_seq_contains_after_push(
                                            be0,
                                            (node, b),
                                            (u, v),
                                        );
                                        assert((u, v) != (node, b));
                                        assert(be0.contains((u, v)));
                                    }
                                    if exists|u: usize| be0.contains((u, v)) {
                                        let u = choose|u: usize| be0.contains((u, v));
                                        vstd::seq_lib::lemma_seq_contains_after_push(
                                            be0,
                                            (node, b),
                                            (u, v),
                                        );
                                        assert(be@.contains((u, v)));
                                    }
                                }
                            }
                        }
                        assert forall|p: (usize, usize)| #[trigger] be@.contains(p) implies edges@
                            .contains(p) by {
                            vstd::seq_lib::lemma_seq_contains_after_push(be0, (node, b), p);
                        }
                    }
                }
            }
            if !visited[b] {
                let ghost prev = visited@;
                visited.set(b, true);
                let ghost marked = visited@;
                dfs_back_edges(edges, n, b, fuel - 1, visited, path, lh, be);
                proof {
                    assert forall|i: int| 0 <= i < n && entry_visited[i] implies #[trigger] visited@[i] by {
                        assert(prev[i]);
                        assert(marked[i]);
                    }
                }
            }
        }
        j = j + 1;
    }
    let popped = path.pop();
    proof {
        assert(old(path)@.push(node).drop_last() =~= old(path)@);
    }
}

/// Depth-first loop-head and back-edge detection from `root`. An edge
/// `u -> v` is a back edge exactly when `v` lies earlier on the running
/// root-to-`u` path; every back-edge target is a loop head.
pub fn find_loop_heads_and_back_edges(edges: &Vec<(usize, usize)>, n: usize, root: usize) -> (r: (
    Vec<usize>,
    Vec<(usize, usize)>,
))
    requires
        root < n,
        forall|i: int|
            0 <= i < edges@.len() ==> (#[trigger] edges@[i]).0 < n && edges@[i].1 < n,
    ensures
        heads_match(r.0@, r.1@),
        forall|p: (usize, usize)| #[trigger] r.1@.contains(p) ==> edges@.contains(p),
        r.1@ == loop_dfs(
            edges@,
            n as int,
            root,
            n as nat,
            init_mark(n as int, root as int),
            Seq::<usize>::empty(),
            Seq::<(usize, usize)>::empty(),
        ).1,
{
    let mut visited: Vec<bool> = Vec::new();
    let mut i: usize = 0;
    while i < n
        invariant
            i <= n,
            visited@.len() == i,
            forall|q: int| 0 <= q < i ==> !(#[trigger] visited@[q]),
        decreases n - i,
    {
        visited.push(false);
        i = i + 1;
    }
    visited.set(root, true);
    proof {
        assert(visited@ =~= init_mark(n as int, root as int));
    }
    let mut path: Vec<usize> = Vec::new();
    let mut lh: Vec<usize> = Vec::new();
    let mut be: Vec<(usize, usize)> = Vec::new();
    proof {
        assert forall|v: usize| #[trigger]
            lh@.contains(v) <==> exists|u: usize| be@.contains((u, v)) by {
            if lh@.contains(v) {
                let j = choose|j: int| 0 <= j < lh@.len() && lh@[j] == v;
            }
            if exists|u: usize| be@.contains((u, v)) {
                let u = choose|u: usize| be@.contains((u, v));
                let j = choose|j: int| 0 <= j < be@.len() && be@[j] == (u, v);
            }
        }
    }
    dfs_back_edges(edges, n, root, n, &mut visited, &mut path, &mut lh, &mut be);
    (lh, be)
}

/// The exact postorder traversal, mirrored at the specification level: from
/// `node`, the edges are scanned in list order, each unvisited successor is
/// finished first, and `node` itself is appended last. Exhausted fuel
/// appends the node without descending.
pub open spec fn post_dfs(
    edges: Seq<(usize, usize)>,
    n: int,
    node: usize,
    fuel: nat,
    visited: Seq<bool>,
    order: Seq<usize>,
) -> (Seq<bool>, Seq<usize>)
    decreases fuel, 1int, 0int,
{
    if fuel == 0 {
        (visited, order.push(node))
    } else {
        let st = post_dfs_edges(edges, n, node, fuel, 0, visited, order);
        (st.0, st.1.push(node))
    }
}

/// The edge scan of `post_dfs`, from list position `j` on.
pub open spec fn post_dfs_edges(
    edges: Seq<(usize, usize)>,
    n: int,
    node: usize,
    fuel: nat,
    j: int,
    visited: Seq<bool>,
    order: Seq<usize>,
) -> (Seq<bool>, Seq<usize>)
    decreases fuel, 0int, edges.len() - j,
{
    if fuel == 0 || j < 0 || j >= edges.len() {
        (visited, order)
    } else {
        let a = edges[j].0;
        let b = edges[j].1;
        if a == node && 0 <= b < visited.len() && !visited[b as int] {
            let st = post_dfs(edges, n, b, (fuel - 1) as nat, visited.update(b as int, true), order);
            post_dfs_edges(edges, n, node, fuel, j + 1, st.0, st.1)
        } else {
            post_dfs_edges(edges, n, node, fuel, j + 1, visited, order)
        }
    }
}

/// One frame of the depth-first postorder traversal: every successor is
/// finished before the node itself is appended. The caller has already
/// marked `node` visited.
fn dfs_post(
    edges: &Vec<(usize, usize)>,
    n: usize,
    node: usize,
    fuel: usize,
    visited: &mut Vec<bool>,
    order: &mut Vec<usize>,
)
    requires
        node < n,
        old(visited)@.len() == n,
        old(visited)@[node as int],
        forall|i: int|
            0 <= i < edges@.len() ==> (#[trigger] edges@[i]).0 < n && edges@[i].1 < n,
        forall|j: int| 0 <= j < old(order)@.len() ==> #[trigger] old(order)@[j] < n,
    ensures
        final(visited)@.len() == n,
        forall|i: int| 0 <= i < n ==> (old(visited)@[i] ==> #[trigger] final(visited)@[i]),
        old(order)@.is_prefix_of(final(order)@),
        forall|j: int| 0 <= j < final(order)@.len() ==> #[trigger] final(order)@[j] < n,
        final(order)@.contains(node),
        final(visited)@ == post_dfs(
            edges@,
            n as int,
            node,
            fuel as nat,
            old(visited)@,
            old(order)@,
        ).0,
        final(order)@ == post_dfs(
            edges@,
            n as int,
            node,
            fuel as nat,
            old(visited)@,
            old(order)@,
        ).1,
    decreases fuel,
{
    let ghost entry_visited = visited@;
    if fuel == 0 {
        let ghost before0 = order@;
        order.push(node);
        proof {
            assert(order@[order@.len() - 1] == node);
            assert(order@.contains(node));
            assert(old(order)@.is_prefix_of(order@)) by {
                assert(order@.subrange(0, old(order)@.len() as int) =~= before0.subrange(
                    0,
                    old(order)@.len() as int,
                ));
            }
        }
        return ;
    }
    let ghost target = post_dfs_edges(edges@, n as int, node, fuel as nat, 0, visited@, order@);
    let mut j: usize = 0;
    while j < edges.len()
        invariant
            j <= edges@.len(),
            node < n,
            fuel >= 1,
            visited@.len() == n,
            entry_visited.len() == n,
            forall|i: int| 0 <= i < n ==> (entry_visited[i] ==> #[trigger] visited@[i]),
            forall|i: int|
                0 <= i < edges@.len() ==> (#[trigger] edges@[i]).0 < n && edges@[i].1 < n,
            old(order)@.is_prefix_of(order@),
            forall|k: int| 0 <= k < order@.len() ==> #[trigger] order@[k] < n,
            target == post_dfs_edges(
                edges@,
                n as int,
                node,
                fuel as nat,
                j as int,
                visited@,
                order@,
            ),
        decreases edges@.len() - j,
    {
        let ghost vis_pre = visited@;
        let ghost ord_pre = order@;
        let (a, b) = edges[j];
        if a == node {
            proof {
                assert(edges@[j as int] == (a, b));
            }
            if !visited[b] {
                let ghost prev = visited@;
                let ghost order_prev = order@;
                visited.set(b, true);
                let ghost marked = visited@;
                dfs_post(edges, n, b, fuel - 1, visited, order);
                proof {
                    assert forall|i: int| 0 <= i < n && entry_visited[i] implies #[trigger] visited@[i] by {
                        assert(prev[i]);
                        assert(marked[i]);
                    }
                    assert(old(order)@.is_prefix_of(order@)) by {
                        assert(old(order)@.is_prefix_of(order_prev));
                        assert(order_prev.is_prefix_of(order@));
                        assert(order@.subrange(0, old(order)@.len() as int) =~= order_prev.subrange(
                            0,
                            old(order)@.len() as int,
                        ));
                    }
                    let st = post_dfs(
                        edges@,
                        n as int,
                        b,
                        (fuel - 1) as nat,
                        prev.update(b as int, true),
                        order_prev,
                    );
                    assert(visited@ == st.0 && order@ == st.1);
                    assert(post_dfs_edges(
                        edges@,
                        n as int,
                        node,
                        fuel as nat,
                        j as int,
                        vis_pre,
                        ord_pre,
                    ) == post_dfs_edges(edges@, n as int, node, fuel as nat, j + 1, st.0, st.1));
                }
            } else {
                proof {
                    assert(post_dfs_edges(
                        edges@,
                        n as int,
                        node,
                        fuel as nat,
                        j as int,
                        vis_pre,
                        ord_pre,
                    ) == post_dfs_edges(
                        edges@,
                        n as int,
                        node,
                        fuel as nat,
                        j + 1,
                        vis_pre,
                        ord_pre,
                    ));
                }
            }
        } else {
            proof {
                assert(edges@[j as int] == (a, b));
                assert(post_dfs_edges(
                    edges@,
                    n as int,
                    node,
                    fuel as nat,
                    j as int,
                    vis_pre,
                    ord_pre,
                ) == post_dfs_edges(edges@, n as int, node, fuel as nat, j + 1, vis_pre, ord_pre));
            }
        }
        j = j + 1;
    }
    proof {
        assert(target == (visited@, order@)) by {
            assert(post_dfs_edges(
                edges@,
                n as int,
                node,
                fuel as nat,
                edges@.len() as int,
                visited@,
                order@,
            ) == (visited@, order@));
        }
    }
    let ghost before = order@;
    order.push(node);
    proof {
        assert(order@[order@.len() - 1] == node);
        assert(order@.contains(node));
        assert(old(order)@.is_prefix_of(order@)) by {
            assert(old(order)@.is_prefix_of(before));
            assert(order@.subrange(0, old(order)@.len() as int) =~= before.subrange(
                0,
                old(order)@.len() as int,
            ));
        }
    }
}

impl Graph {
    /// The depth-first postorder of the graph from its root: every member is
    /// an arena index, and a node's successors are finished before the node
    /// itself is yielded.
    pub fn dfs_post_order(&self) -> (r: Vec<usize>)
        requires
            self.wf(),
        ensures
            forall|j: int| 0 <= j < r@.len() ==> #[trigger] r@[j] < self.nodes@.len(),
            r@.contains(self.root),
            r@ == post_dfs(
                self.edges@,
                self.nodes@.len() as int,
                self.root,
                self.nodes@.len() as nat,
                init_mark(self.nodes@.len() as int, self.root as int),
                Seq::<usize>::empty(),
            ).1,
    {
        let n = self.nodes.len();
        proof {
            assert forall|j: int| 0 <= j < self.edges@.len() implies (#[trigger] self.edges@[j]).0
                < n && self.edges@[j].1 < n by {
                assert(self.live(self.edges@[j].0 as int) && self.live(self.edges@[j].1 as int));
            }
        }
        let mut visited: Vec<bool> = Vec::new();
        let mut i: usize = 0;
        while i < n
            invariant
                i <= n,
                visited@.len() == i,
                forall|q: int| 0 <= q < i ==> !(#[trigger] visited@[q]),
            decreases n - i,
        {
            visited.push(false);
            i = i + 1;
        }
        visited.set(self.root, true);
        proof {
            assert(visited@ =~= init_mark(n as int, self.root as int));
        }
        let mut order: Vec<usize> = Vec::new();
        dfs_post(&self.edges, n, self.root, n, &mut visited, &mut order);
        order
    }
}

/// Dominance consistency: every node the analysis assigns an immediate
/// dominator has a dominator chain that reaches the root within as many
/// steps as the graph has arena slots.
pub proof fn lemma_dominator_chains_reach_root(g: Graph)
    requires
        g.caches_wf(),
    ensures
        forall|i: int|
            0 <= i < g.dominators@.len() && #[trigger] g.dominators@[i] is Some ==> in_chain(
                g.dominators@,
                g.root as int,
                i,
                g.dominators@.len() as nat,
            ),
        forall|i: int|
            0 <= i < g.post_dominators@.len() && #[trigger] g.post_dominators@[i] is Some
                ==> in_chain(
                g.post_dominators@,
                g.return_ as int,
                i,
                g.post_dominators@.len() as nat,
            ),
{
}

/// The same edges, each reversed.
pub open spec fn rev_edges(s: Seq<(usize, usize)>) -> Seq<(usize, usize)> {
    s.map_values(|p: (usize, usize)| (p.1, p.0))
}

/// Reverse every edge; post-dominators are dominators of the reversed graph.
fn reverse_edges(edges: &Vec<(usize, usize)>) -> (r: Vec<(usize, usize)>)
    ensures
        r@ == rev_edges(edges@),
{
    let mut out: Vec<(usize, usize)> = Vec::new();
    let mut i: usize = 0;
    while i < edges.len()
        invariant
            i <= edges@.len(),
            out@.len() == i,
            forall|j: int| 0 <= j < i ==> #[trigger] out@[j] == ((#[trigger] edges@[j]).1, edges@[j].0),
        decreases edges@.len() - i,
    {
        let (a, b) = edges[i];
        out.push((b, a));
        i = i + 1;
    }
    proof {
        assert(out@ =~= rev_edges(edges@));
    }
    out
}

/// The structural conditions a graph must meet before any analysis runs.
pub open spec fn inputs_wf(
    nodes: Seq<Option<Node>>,
    edges: Seq<(usize, usize)>,
    root: usize,
    return_: usize,
) -> bool {
    &&& root < nodes.len()
    &&& nodes[root as int] is Some
    &&& return_ < nodes.len()
    &&& nodes[return_ as int] is Some
    &&& nodes.len() < u32::MAX as usize
    &&& edges.len() < u32::MAX as usize
    &&& forall|i: int|
        0 <= i < edges.len() ==> (#[trigger] edges[i]).0 < nodes.len() && nodes[edges[i].0 as int]
            is Some && edges[i].1 < nodes.len() && nodes[edges[i].1 as int] is Some
}

impl Graph {
    /// Build the wrapper and run every analysis once: immediate dominators
    /// from `root`, the dominator tree, post-dominators over the reversed
    /// graph from `return_`, and loop-head and back-edge detection. Fails
    /// exactly when the inputs are structurally unsound or a computed
    /// dominator relation is.
    pub fn new(
        nodes: Vec<Option<Node>>,
        edges: Vec<(usize, usize)>,
        root: usize,
        return_: usize,
    ) -> (r: Option<Graph>)
        ensures
            r is Some <==> (inputs_wf(nodes@, edges@, root, return_) && doms_wf(
                idoms_of(nodes@.len() as usize, edges@, root),
                root as int,
            ) && doms_wf(
                idoms_of(nodes@.len() as usize, rev_edges(edges@), return_),
                return_ as int,
            )),
            r matches Some(g) ==> g.nodes@ == nodes@ && g.edges@ == edges@ && g.root == root
                && g.return_ == return_ && g.wf() && g.caches_wf(),
            r matches Some(g) ==> g.dominators@ == idoms_of(nodes@.len() as usize, edges@, root)
                && g.post_dominators@ == idoms_of(
                nodes@.len() as usize,
                rev_edges(edges@),
                return_,
            ) && g.dominator_tree.doms@ == g.dominators@ && g.dominator_tree.root == root,
            r matches Some(g) ==> g.back_edges@ == loop_dfs(
                edges@,
                nodes@.len() as int,
                root,
                nodes@.len() as nat,
                init_mark(nodes@.len() as int, root as int),
                Seq::<usize>::empty(),
                Seq::<(usize, usize)>::empty(),
            ).1,
    {
        let n = nodes.len();
        if n >= (u32::MAX as usize) || edges.len() >= (u32::MAX as usize) {
            return None;
        }
        if root >= n || return_ >= n {
            return None;
        }
        if nodes[root].is_none() || nodes[return_].is_none() {
            return None;
        }
        let mut i: usize = 0;
        while i < edges.len()
            invariant
                i <= edges@.len(),
                n == nodes@.len(),
                forall|j: int|
                    0 <= j < i ==> (#[trigger] edges@[j]).0 < n && nodes@[edges@[j].0 as int]
                        is Some && edges@[j].1 < n && nodes@[edges@[j].1 as int] is Some,
            decreases edges@.len() - i,
        {
            let (a, b) = edges[i];
            if a >= n || b >= n {
                return None;
            }
            if nodes[a].is_none() || nodes[b].is_none() {
                return None;
            }
            i = i + 1;
        }
        let doms = petgraph_idoms(n, &edges, root);
        let tree = match DominatorTree::from_dominators(&doms, root) {
            Some(t) => t,
            None => {
                return None;
            },
        };
        let rev = reverse_edges(&edges);
        proof {
            assert forall|j: int| 0 <= j < rev@.len() implies (#[trigger] rev@[j]).0 < n
                && rev@[j].1 < n by {
                assert(rev@[j] == (edges@[j].1, edges@[j].0));
            }
        }
        let postdoms = petgraph_idoms(n, &rev, return_);
        if !crate::doms::check_idoms(&postdoms, return_) {
            return None;
        }
        let (lh, be) = find_loop_heads_and_back_edges(&edges, n, root);
        Some(
            Graph {
                nodes,
                edges,
                root,
                return_,
                dominators: doms,
                dominator_tree: tree,
                post_dominators: postdoms,
                loop_heads: lh,
                back_edges: be,
            },
        )
    }

    /// Rebuild every derived cache from the current graph, after a mutation.
    /// Fails exactly when a computed dominator relation is structurally
    /// unsound; the graph itself is never changed.
    pub fn recompute_info(&mut self) -> (r: bool)
        requires
            old(self).wf(),
        ensures
            final(self).nodes@ == old(self).nodes@,
            final(self).edges@ == old(self).edges@,
            final(self).root == old(self).root,
            final(self).return_ == old(self).return_,
            final(self).wf(),
            r ==> final(self).caches_wf(),
            r <==> (old(self).nodes@.len() < u32::MAX as usize && old(self).edges@.len()
                < u32::MAX as usize && doms_wf(
                idoms_of(old(self).nodes@.len() as usize, old(self).edges@, old(self).root),
                old(self).root as int,
            ) && doms_wf(
                idoms_of(
                    old(self).nodes@.len() as usize,
                    rev_edges(old(self).edges@),
                    old(self).return_,
                ),
                old(self).return_ as int,
            )),
            r ==> final(self).dominators@ == idoms_of(
                old(self).nodes@.len() as usize,
                old(self).edges@,
                old(self).root,
            ),
            r ==> final(self).post_dominators@ == idoms_of(
                old(self).nodes@.len() as usize,
                rev_edges(old(self).edges@),
                old(self).return_,
            ),
            r ==> final(self).dominator_tree.doms@ == final(self).dominators@,
            r ==> final(self).dominator_tree.root == old(self).root,
            r ==> final(self).back_edges@ == loop_dfs(
                old(self).edges@,
                old(self).nodes@.len() as int,
                old(self).root,
                old(self).nodes@.len() as nat,
                init_mark(old(self).nodes@.len() as int, old(self).root as int),
                Seq::<usize>::empty(),
                Seq::<(usize, usize)>::empty(),
            ).1,
            !r ==> final(self).dominators@ == old(self).dominators@,
            !r ==> final(self).dominator_tree == old(self).dominator_tree,
            !r ==> final(self).post_dominators@ == old(self).post_dominators@,
            !r ==> final(self).loop_heads@ == old(self).loop_heads@,
            !r ==> final(self).back_edges@ == old(self).back_edges@,
    {
        let n = self.nodes.len();
        if n >= (u32::MAX as usize) || self.edges.len() >= (u32::MAX as usize) {
            return false;
        }
        proof {
            assert forall|j: int| 0 <= j < self.edges@.len() implies (#[trigger] self.edges@[j]).0
                < n && self.edges@[j].1 < n by {
                assert(self.live(self.edges@[j].0 as int) && self.live(self.edges@[j].1 as int));
            }
        }
        let doms = petgraph_idoms(n, &self.edges, self.root);
        let tree_opt = DominatorTree::from_dominators(&doms, self.root);
        let rev = reverse_edges(&self.edges);
        proof {
            assert forall|j: int| 0 <= j < rev@.len() implies (#[trigger] rev@[j]).0 < n
                && rev@[j].1 < n by {
                assert(rev@[j] == (self.edges@[j].1, self.edges@[j].0));
            }
        }
        let postdoms = petgraph_idoms(n, &rev, self.return_);
        let posts_ok = crate::doms::check_idoms(&postdoms, self.return_);
        let (lh, be) = find_loop_heads_and_back_edges(&self.edges, n, self.root);
        match tree_opt {
            Some(tree) => {
                if posts_ok {
                    self.dominators = doms;
                    self.dominator_tree = tree;
                    self.post_dominators = postdoms;
                    self.loop_heads = lh;
                    self.back_edges = be;
                    true
                } else {
                    false
                }
            },
            None => false,
        }
    }
}

/// Whether the pair `(a, b)` occurs in the list.
pub open spec fn contains_pair_spec(s: Seq<(usize, usize)>, a: usize, b: usize) -> bool {
    s.contains((a, b))
}

/// Membership test for an edge list.
pub(crate) fn contains_pair(s: &Vec<(usize, usize)>, a: usize, b: usize) -> (r: bool)
    ensures
        r == s@.contains((a, b)),
{
    let mut i: usize = 0;
    while i < s.len()
        invariant
            i <= s@.len(),
            forall|j: int| 0 <= j < i ==> s@[j] != (a, b),
        decreases s@.len() - i,
    {
        let (x, y) = s[i];
        if x == a && y == b {
            assert(s@[i as int] == (a, b));
            return true;
        }
        i = i + 1;
    }
    proof {
        if s@.contains((a, b)) {
            let j = choose|j: int| 0 <= j < s@.len() && s@[j] == (a, b);
            assert(s@[j] != (a, b));
        }
    }
    false
}

/// Membership test for a node list.
pub(crate) fn contains_usize(s: &Vec<usize>, x: usize) -> (r: bool)
    ensures
        r == s@.contains(x),
{
    let mut i: usize = 0;
    while i < s.len()
        invariant
            i <= s@.len(),
            forall|j: int| 0 <= j < i ==> s@[j] != x,
        decreases s@.len() - i,
    {
        if s[i] == x {
            assert(s@[i as int] == x);
            return true;
        }
        i = i + 1;
    }
    proof {
        if s@.contains(x) {
            let j = choose|j: int| 0 <= j < s@.len() && s@[j] == x;
            assert(s@[j] != x);
        }
    }
    false
}

} // verus!
