//! The structuring engine: per pass it walks a depth-first postorder of
//! the graph, finds a collapsible cyclic or acyclic region, resolves its
//! exit set, and replaces the region by one structured node, until a single
//! node remains.

use vstd::prelude::*;

use crate::ast::{Node, Structured};
use crate::cond::{rc_clone, Predicate};
use crate::graph::{contains_usize, live_count, Graph};

verus! {

broadcast use vstd::std_specs::vec::group_vec_axioms, vstd::seq::group_seq_axioms;

/// Why a structuring run stopped without producing a single node.
#[derive(Debug, Clone, Copy, PartialEq, Eq, Structural)]
pub enum StructureError {
    /// A dominator analysis could not be rebuilt over the current graph.
    Analysis,
    /// A full postorder pass found no collapsible region: the graph holds an
    /// irreducible shape this strategy set cannot resolve.
    Irreducible,
}

/// A deep copy of a structured payload; shared condition trees stay shared.
fn clone_structured(s: &Structured) -> Structured
    decreases *s,
{
    match s {
        Structured::CodeBlock(id) => Structured::CodeBlock(*id),
        Structured::Sequence(v) => Structured::Sequence(clone_structured_vec(v)),
        Structured::If { test, conseq, alt } => Structured::If {
            test: rc_clone(test),
            conseq: Box::new(clone_structured(conseq)),
            alt: match alt {
                Some(b) => Some(Box::new(clone_structured(b))),
                None => None,
            },
        },
        Structured::Loop { body } => Structured::Loop { body: Box::new(clone_structured(body)) },
        Structured::WhileLoop { test, body } => Structured::WhileLoop {
            test: rc_clone(test),
            body: Box::new(clone_structured(body)),
        },
        Structured::Break => Structured::Break,
    }
}

fn clone_structured_vec(v: &Vec<Structured>) -> Vec<Structured>
    decreases v@,
{
    let mut out: Vec<Structured> = Vec::new();
    let mut i: usize = 0;
    while i < v.len()
        decreases v@.len() - i,
    {
        out.push(clone_structured(&v[i]));
        i = i + 1;
    }
    out
}

/// A node as a structured fragment: a code block keeps its body, a collapsed
/// region keeps its payload, a stray branch keeps its simplified test as a
/// conditional over empty arms, a placeholder contributes nothing.
fn node_to_structured(n: &Node) -> Structured {
    match n {
        Node::Code { id, .. } => Structured::CodeBlock(*id),
        Node::Structured(_, s) => clone_structured(s),
        Node::Conditional { test, .. } => Structured::If {
            test: test.simplify(),
            conseq: Box::new(Structured::Sequence(Vec::new())),
            alt: None,
        },
        Node::Virtual => Structured::Sequence(Vec::new()),
    }
}

/// No non-back edge leaves `s`: in the back-edge-blind view, `s` is a sink.
pub open spec fn blind_sink(g: Graph, s: usize) -> bool {
    forall|w: usize| !(g.edges@.contains((s, w)) && !g.back_edges@.contains((s, w)))
}

/// `d` is an exit candidate of the region: it is one blind edge away from
/// some member, and it either lies outside the region or is a member with
/// no way onward.
pub open spec fn is_end_successor(g: Graph, region: Seq<usize>, d: usize) -> bool {
    &&& exists|m: usize| #[trigger]
        region.contains(m) && g.edges@.contains((m, d)) && !g.back_edges@.contains((m, d))
    &&& (!region.contains(d) || blind_sink(g, d))
}

/// The nodes one blind edge outside the region, plus any member with no way
/// onward: exactly the exit candidates of an acyclic region, each listed
/// once. Every answer is the target of a real edge, so it is present.
pub fn get_end_successor_nodes(g: &Graph, region: &Vec<usize>) -> (r: Vec<usize>)
    requires
        g.wf(),
    ensures
        forall|j: int, k: int| 0 <= j < k < r@.len() ==> r@[j] != r@[k],
        forall|d: usize| #[trigger] r@.contains(d) <==> is_end_successor(*g, region@, d),
        forall|x: usize| #[trigger] r@.contains(x) ==> g.live(x as int),
{
    let mut out: Vec<usize> = Vec::new();
    let mut i: usize = 0;
    while i < region.len()
        invariant
            i <= region@.len(),
            g.wf(),
            forall|j: int, k: int| 0 <= j < k < out@.len() ==> out@[j] != out@[k],
            forall|x: usize| #[trigger] out@.contains(x) ==> g.live(x as int),
            forall|d: usize| #[trigger]
                out@.contains(d) <==> (exists|j: int|
                    0 <= j < i && g.edges@.contains((#[trigger] region@[j], d))
                        && !g.back_edges@.contains((region@[j], d)) && (!region@.contains(d)
                        || blind_sink(*g, d))),
        decreases region@.len() - i,
    {
        let m = region[i];
        proof {
            assert(region@[i as int] == m);
        }
        let succs = g.successors(m);
        let mut t: usize = 0;
        while t < succs.len()
            invariant
                t <= succs@.len(),
                g.wf(),
                i < region@.len(),
                m == region@[i as int],
                forall|v: usize| #[trigger]
                    succs@.contains(v) <==> (g.edges@.contains((m, v)) && !g.back_edges@.contains(
                        (m, v),
                    )),
                forall|j: int, k: int| 0 <= j < k < out@.len() ==> out@[j] != out@[k],
                forall|x: usize| #[trigger] out@.contains(x) ==> g.live(x as int),
                forall|d: usize| #[trigger]
                    out@.contains(d) <==> ((exists|j: int|
                        0 <= j < i && g.edges@.contains((#[trigger] region@[j], d))
                            && !g.back_edges@.contains((region@[j], d)) && (!region@.contains(d)
                            || blind_sink(*g, d))) || (exists|q: int|
                        0 <= q < t && succs@[q] == d && (!region@.contains(d) || blind_sink(
                            *g,
                            d,
                        )))),
            decreases succs@.len() - t,
        {
            let s = succs[t];
            proof {
                assert(succs@[t as int] == s);
                assert(succs@.contains(s));
            }
            let in_region = contains_usize(region, s);
            let s_succs = g.successors(s);
            let ghost is_sink = blind_sink(*g, s);
            proof {
                if s_succs.len() == 0 {
                    assert forall|w: usize| !(g.edges@.contains((s, w))
                        && !g.back_edges@.contains((s, w))) by {
                        if g.edges@.contains((s, w)) && !g.back_edges@.contains((s, w)) {
                            assert(s_succs@.contains(w));
                        }
                    }
                    assert(is_sink);
                } else {
                    assert(s_succs@.contains(s_succs@[0]));
                    assert(!is_sink);
                }
            }
            if !in_region || s_succs.is_empty() {
                if !contains_usize(&out, s) {
                    let ghost before = out@;
                    proof {
                        let u = m;
                        let j = choose|j: int| 0 <= j < g.edges@.len() && g.edges@[j] == (u, s);
                        assert(g.live(s as int));
                    }
                    out.push(s);
                    proof {
                        assert forall|j: int, k: int|
                            0 <= j < k < out@.len() implies out@[j] != out@[k] by {
                            if k == out@.len() - 1 {
                                assert(!before.contains(s));
                                assert(before[j] == out@[j]);
                            }
                        }
                        assert forall|x: usize| #[trigger] out@.contains(x) implies g.live(
                            x as int,
                        ) by {
                            vstd::seq_lib::lemma_seq_contains_after_push(before, s, x);
                        }
                        assert forall|d: usize| #[trigger]
                            out@.contains(d) <==> ((exists|j: int|
                                0 <= j < i && g.edges@.contains((#[trigger] region@[j], d))
                                    && !g.back_edges@.contains((region@[j], d)) && (
                                !region@.contains(d) || blind_sink(*g, d))) || (exists|q: int|
                                0 <= q < t + 1 && succs@[q] == d && (!region@.contains(d)
                                    || blind_sink(*g, d)))) by {
                            vstd::seq_lib::lemma_seq_contains_after_push(before, s, d);
                            if d == s {
                                assert(succs@[t as int] == d);
                            } else {
                                if exists|q: int|
                                    0 <= q < t + 1 && succs@[q] == d && (!region@.contains(d)
                                        || blind_sink(*g, d)) {
                                    let q = choose|q: int|
                                        0 <= q < t + 1 && succs@[q] == d && (!region@.contains(d)
                                            || blind_sink(*g, d));
                                    assert(q < t);
                                }
                            }
                        }
                    }
                } else {
                    proof {
                        assert forall|d: usize|
                            ((exists|j: int|
                                0 <= j < i && g.edges@.contains((#[trigger] region@[j], d))
                                    && !g.back_edges@.contains((region@[j], d)) && (
                                !region@.contains(d) || blind_sink(*g, d))) || (exists|q: int|
                                0 <= q < t + 1 && succs@[q] == d && (!region@.contains(d)
                                    || blind_sink(*g, d)))) implies #[trigger] out@.contains(d) by {
                            if !(exists|j: int|
                                0 <= j < i && g.edges@.contains((#[trigger] region@[j], d))
                                    && !g.back_edges@.contains((region@[j], d)) && (
                                !region@.contains(d) || blind_sink(*g, d))) {
                                let q = choose|q: int|
                                    0 <= q < t + 1 && succs@[q] == d && (!region@.contains(d)
                                        || blind_sink(*g, d));
                                if q == t {
                                    assert(d == s);
                                    assert(out@.contains(s));
                                }
                            }
                        }
                    }
                }
            } else {
                proof {
                    assert forall|d: usize|
                        ((exists|j: int|
                            0 <= j < i && g.edges@.contains((#[trigger] region@[j], d))
                                && !g.back_edges@.contains((region@[j], d)) && (!region@.contains(
                            d,
                        ) || blind_sink(*g, d))) || (exists|q: int|
                            0 <= q < t + 1 && succs@[q] == d && (!region@.contains(d)
                                || blind_sink(*g, d)))) implies #[trigger] out@.contains(d) by {
                        if !(exists|j: int|
                            0 <= j < i && g.edges@.contains((#[trigger] region@[j], d))
                                && !g.back_edges@.contains((region@[j], d)) && (!region@.contains(
                            d,
                        ) || blind_sink(*g, d))) {
                            let q = choose|q: int|
                                0 <= q < t + 1 && succs@[q] == d && (!region@.contains(d)
                                    || blind_sink(*g, d));
                            if q == t {
                                assert(d == s);
                                assert(region@.contains(s) && !blind_sink(*g, s));
                                assert(false);
                            }
                        }
                    }
                }
            }
            t = t + 1;
        }
        proof {
            assert forall|d: usize| #[trigger]
                out@.contains(d) <==> (exists|j: int|
                    0 <= j < i + 1 && g.edges@.contains((#[trigger] region@[j], d))
                        && !g.back_edges@.contains((region@[j], d)) && (!region@.contains(d)
                        || blind_sink(*g, d))) by {
                if out@.contains(d) {
                    if exists|q: int|
                        0 <= q < succs@.len() && succs@[q] == d && (!region@.contains(d)
                            || blind_sink(*g, d)) {
                        let q = choose|q: int|
                            0 <= q < succs@.len() && succs@[q] == d && (!region@.contains(d)
                                || blind_sink(*g, d));
                        assert(succs@.contains(d));
                        assert(g.edges@.contains((region@[i as int], d))
                            && !g.back_edges@.contains((region@[i as int], d)));
                    }
                }
                if exists|j: int|
                    0 <= j < i + 1 && g.edges@.contains((#[trigger] region@[j], d))
                        && !g.back_edges@.contains((region@[j], d)) && (!region@.contains(d)
                        || blind_sink(*g, d)) {
                    let j = choose|j: int|
                        0 <= j < i + 1 && g.edges@.contains((#[trigger] region@[j], d))
                            && !g.back_edges@.contains((region@[j], d)) && (!region@.contains(d)
                            || blind_sink(*g, d));
                    if j == i {
                        assert(succs@.contains(d));
                        let q = choose|q: int| 0 <= q < succs@.len() && succs@[q] == d;
                        assert(out@.contains(d));
                    }
                }
            }
        }
        i = i + 1;
    }
    proof {
        assert forall|d: usize| #[trigger]
            out@.contains(d) <==> is_end_successor(*g, region@, d) by {
            if out@.contains(d) {
                let j = choose|j: int|
                    0 <= j < region@.len() && g.edges@.contains((#[trigger] region@[j], d))
                        && !g.back_edges@.contains((region@[j], d)) && (!region@.contains(d)
                        || blind_sink(*g, d));
                assert(region@.contains(region@[j]));
                assert(region@.contains(region@[j]) && g.edges@.contains((region@[j], d))
                    && !g.back_edges@.contains((region@[j], d)));
            }
            if is_end_successor(*g, region@, d) {
                let m = choose|m: usize| #[trigger]
                    region@.contains(m) && g.edges@.contains((m, d)) && !g.back_edges@.contains(
                        (m, d),
                    );
                let j = choose|j: int| 0 <= j < region@.len() && region@[j] == m;
                assert(g.edges@.contains((region@[j], d)));
            }
        }
    }
    out
}

/// The out-of-region immediate post-dominators of the region's members:
/// exactly the nodes outside the region that the cache records as the
/// immediate post-dominator of some member, each listed once.
pub fn get_postdom_nodes(g: &Graph, region: &Vec<usize>) -> (r: Vec<usize>)
    requires
        g.caches_wf(),
        forall|j: int| 0 <= j < region@.len() ==> #[trigger] region@[j] < g.nodes@.len(),
    ensures
        forall|j: int, k: int| 0 <= j < k < r@.len() ==> r@[j] != r@[k],
        forall|d: usize| #[trigger]
            r@.contains(d) <==> (!region@.contains(d) && exists|j: int|
                0 <= j < region@.len() && g.post_dominators@[#[trigger] region@[j] as int]
                    == Some(d)),
{
    let mut out: Vec<usize> = Vec::new();
    let mut i: usize = 0;
    while i < region.len()
        invariant
            i <= region@.len(),
            g.caches_wf(),
            forall|j: int| 0 <= j < region@.len() ==> #[trigger] region@[j] < g.nodes@.len(),
            forall|j: int, k: int| 0 <= j < k < out@.len() ==> out@[j] != out@[k],
            forall|d: usize| #[trigger]
                out@.contains(d) <==> (!region@.contains(d) && exists|j: int|
                    0 <= j < i && g.post_dominators@[#[trigger] region@[j] as int] == Some(d)),
        decreases region@.len() - i,
    {
        let m = region[i];
        proof {
            assert(region@[i as int] == m);
        }
        match g.post_dominators[m] {
            Some(d) => {
                if !contains_usize(region, d) && !contains_usize(&out, d) {
                    let ghost before = out@;
                    proof {
                        assert(g.post_dominators@[region@[i as int] as int] == Some(d));
                    }
                    out.push(d);
                    proof {
                        assert forall|j: int, k: int|
                            0 <= j < k < out@.len() implies out@[j] != out@[k] by {
                            if k == out@.len() - 1 {
                                assert(!before.contains(d));
                                assert(before[j] == out@[j]);
                            }
                        }
                        assert forall|x: usize| #[trigger]
                            out@.contains(x) <==> (!region@.contains(x) && exists|j: int|
                                0 <= j < i + 1 && g.post_dominators@[#[trigger] region@[j] as int]
                                    == Some(x)) by {
                            vstd::seq_lib::lemma_seq_contains_after_push(before, d, x);
                            if x == d {
                                assert(g.post_dominators@[region@[i as int] as int] == Some(x));
                            } else {
                                if !region@.contains(x) && exists|j: int|
                                    0 <= j < i + 1 && g.post_dominators@[
                                    #[trigger] region@[j] as int] == Some(x) {
                                    let j = choose|j: int|
                                        0 <= j < i + 1 && g.post_dominators@[
                                        #[trigger] region@[j] as int] == Some(x);
                                    assert(j < i);
                                }
                            }
                        }
                    }
                } else {
                    proof {
                        assert forall|x: usize| #[trigger]
                            out@.contains(x) <==> (!region@.contains(x) && exists|j: int|
                                0 <= j < i + 1 && g.post_dominators@[#[trigger] region@[j] as int]
                                    == Some(x)) by {
                            if !region@.contains(x) && exists|j: int|
                                0 <= j < i + 1 && g.post_dominators@[#[trigger] region@[j] as int]
                                    == Some(x) {
                                let j = choose|j: int|
                                    0 <= j < i + 1 && g.post_dominators@[
                                    #[trigger] region@[j] as int] == Some(x);
                                if j == i {
                                    assert(x == d);
                                    assert(out@.contains(d) || region@.contains(d));
                                }
                            }
                        }
                    }
                }
            },
            None => {
                proof {
                    assert forall|x: usize| #[trigger]
                        out@.contains(x) <==> (!region@.contains(x) && exists|j: int|
                            0 <= j < i + 1 && g.post_dominators@[#[trigger] region@[j] as int]
                                == Some(x)) by {
                        if !region@.contains(x) && exists|j: int|
                            0 <= j < i + 1 && g.post_dominators@[#[trigger] region@[j] as int]
                                == Some(x) {
                            let j = choose|j: int|
                                0 <= j < i + 1 && g.post_dominators@[#[trigger] region@[j] as int]
                                    == Some(x);
                            assert(j < i);
                        }
                    }
                }
            },
        }
        i = i + 1;
    }
    out
}

/// At most one raw outgoing edge leaves `m`.
pub open spec fn at_most_one_out(g: Graph, m: usize) -> bool {
    forall|j: int, k: int|
        0 <= j < k < g.edges@.len() ==> !((#[trigger] g.edges@[j]).0 == m && (
        #[trigger] g.edges@[k]).0 == m)
}

/// A present straight-line code node.
pub open spec fn is_code_node(g: Graph, x: usize) -> bool {
    x < g.nodes@.len() && g.nodes@[x as int] is Some && g.nodes@[x as int]->0 is Code
}

/// How many outgoing edges the node has in the raw graph; at most one
/// exactly when no two edge positions both leave it.
fn out_degree(g: &Graph, node: usize) -> (r: usize)
    ensures
        (r <= 1) <==> at_most_one_out(*g, node),
{
    let mut count: usize = 0;
    let mut i: usize = 0;
    let ghost mut w: int = 0int;
    while i < g.edges.len()
        invariant
            i <= g.edges@.len(),
            count <= i,
            count == 0 ==> forall|j: int| 0 <= j < i ==> (#[trigger] g.edges@[j]).0 != node,
            count == 1 ==> 0 <= w < i && g.edges@[w].0 == node && forall|j: int|
                0 <= j < i && (#[trigger] g.edges@[j]).0 == node ==> j == w,
            count >= 2 ==> exists|j: int, k: int|
                0 <= j < k < i && (#[trigger] g.edges@[j]).0 == node && (#[trigger] g.edges@[k]).0
                    == node,
        decreases g.edges@.len() - i,
    {
        let (a, _) = g.edges[i];
        proof {
            assert(g.edges@[i as int].0 == a);
        }
        if a == node {
            if count == 0 {
                proof {
                    w = i as int;
                }
            }
            count = count + 1;
        }
        i = i + 1;
    }
    proof {
        if count >= 2 {
            let (j, k) = choose|j: int, k: int|
                0 <= j < k < g.edges@.len() && (#[trigger] g.edges@[j]).0 == node && (
                #[trigger] g.edges@[k]).0 == node;
            assert(!at_most_one_out(*g, node));
        }
    }
    count
}

/// How many distinct members of the list are genuine code nodes; with no
/// duplicates in the list, at least two exactly when two distinct such
/// nodes stand in it.
fn count_code_nodes(g: &Graph, set: &Vec<usize>) -> (r: usize)
    requires
        forall|j: int, k: int| 0 <= j < k < set@.len() ==> set@[j] != set@[k],
    ensures
        (r >= 2) <==> (exists|x1: usize, x2: usize|
            x1 != x2 && #[trigger] set@.contains(x1) && is_code_node(*g, x1)
                && #[trigger] set@.contains(x2) && is_code_node(*g, x2)),
{
    let mut count: usize = 0;
    let mut i: usize = 0;
    let ghost mut w: int = 0int;
    while i < set.len()
        invariant
            i <= set@.len(),
            count <= i,
            forall|j: int, k: int| 0 <= j < k < set@.len() ==> set@[j] != set@[k],
            count == 0 ==> forall|j: int| 0 <= j < i ==> !is_code_node(*g, #[trigger] set@[j]),
            count == 1 ==> 0 <= w < i && is_code_node(*g, set@[w]) && forall|j: int|
                0 <= j < i && is_code_node(*g, #[trigger] set@[j]) ==> j == w,
            count >= 2 ==> exists|j: int, k: int|
                0 <= j < k < i && is_code_node(*g, #[trigger] set@[j]) && is_code_node(
                    *g,
                    #[trigger] set@[k],
                ),
        decreases set@.len() - i,
    {
        let m = set[i];
        proof {
            assert(set@[i as int] == m);
        }
        let mut is_c = false;
        if m < g.nodes.len() {
            match &g.nodes[m] {
                Some(n) => {
                    if n.is_code() {
                        is_c = true;
                    }
                },
                None => {},
            }
        }
        proof {
            assert(is_c == is_code_node(*g, m));
        }
        if is_c {
            if count == 0 {
                proof {
                    w = i as int;
                }
            }
            count = count + 1;
        }
        i = i + 1;
    }
    proof {
        if count >= 2 {
            let (j, k) = choose|j: int, k: int|
                0 <= j < k < set@.len() && is_code_node(*g, #[trigger] set@[j]) && is_code_node(
                    *g,
                    #[trigger] set@[k],
                );
            assert(set@.contains(set@[j]) && set@.contains(set@[k]));
            assert(set@[j] != set@[k]);
        }
        if exists|x1: usize, x2: usize|
            x1 != x2 && #[trigger] set@.contains(x1) && is_code_node(*g, x1)
                && #[trigger] set@.contains(x2) && is_code_node(*g, x2) {
            let (x1, x2) = choose|x1: usize, x2: usize|
                x1 != x2 && #[trigger] set@.contains(x1) && is_code_node(*g, x1)
                    && #[trigger] set@.contains(x2) && is_code_node(*g, x2);
            let j1 = choose|j: int| 0 <= j < set@.len() && set@[j] == x1;
            let j2 = choose|j: int| 0 <= j < set@.len() && set@[j] == x2;
            assert(j1 != j2);
            if count == 0 {
                assert(!is_code_node(*g, set@[j1]));
                assert(false);
            }
            if count == 1 {
                assert(j1 == w && j2 == w);
                assert(false);
            }
        }
    }
    count
}

/// The candidate set after the scan has reached position `i` of the
/// visited list: the head together with the scanned suffix.
pub open spec fn scanned_set(head: usize, visited: Seq<usize>, i: int) -> Set<usize> {
    Set::new(|x: usize| x == head || exists|k: int| i <= k < visited.len() && visited[k] == x)
}

/// The sub-region search accepts position `i` of the visited list with exit
/// set `t`: the scanned suffix lies wholly in the region; the candidate
/// there post-dominates the whole candidate set; the exit set is the
/// candidate alone when at most one raw edge leaves it, and otherwise
/// exactly its present back-edge-blind predecessors; and the candidate set
/// together with the exit set holds two distinct genuine code nodes.
pub open spec fn fallback_accepts(
    g: Graph,
    region: Seq<usize>,
    visited: Seq<usize>,
    head: usize,
    i: int,
    t: Seq<usize>,
) -> bool {
    let m = visited[i];
    &&& 0 <= i < visited.len()
    &&& forall|k: int| i <= k < visited.len() ==> region.contains(#[trigger] visited[k])
    &&& forall|x: usize| #[trigger]
        scanned_set(head, visited, i).contains(x) ==> g.spec_post_dominates(m as int, x as int)
    &&& (if at_most_one_out(g, m) {
        t == seq![m]
    } else {
        forall|x: usize| #[trigger]
            t.contains(x) <==> (x < g.nodes@.len() && g.edges@.contains((x, m))
                && !g.back_edges@.contains((x, m)))
    })
    &&& exists|x1: usize, x2: usize|
        x1 != x2 && (scanned_set(head, visited, i).contains(x1) || t.contains(x1))
            && #[trigger] is_code_node(g, x1) && (scanned_set(head, visited, i).contains(x2)
            || t.contains(x2)) && #[trigger] is_code_node(g, x2)
}

/// Some position of the visited list is accepted with exit set `t`.
pub open spec fn fallback_found(
    g: Graph,
    region: Seq<usize>,
    visited: Seq<usize>,
    head: usize,
    t: Seq<usize>,
) -> bool {
    exists|i: int| fallback_accepts(g, region, visited, head, i, t)
}

/// The sub-region search fallback: walk the nodes already visited in this
/// postorder pass, newest first, growing a candidate set from the head. Give
/// up as soon as a visited node falls outside the region. A position is
/// accepted, and its tail set returned, exactly as `fallback_accepts` says.
#[verifier::rlimit(100)]
#[verifier::spinoff_prover]
pub fn get_sub_region_end_nodes(
    g: &Graph,
    visited_nodes: &Vec<usize>,
    head: usize,
    region: &Vec<usize>,
) -> (r: Option<Vec<usize>>)
    requires
        g.wf(),
        g.caches_wf(),
        head < g.nodes@.len(),
        forall|j: int| 0 <= j < visited_nodes@.len() ==> #[trigger] visited_nodes@[j]
            < g.nodes@.len(),
    ensures
        r matches Some(t) ==> forall|j: int| 0 <= j < t@.len() ==> #[trigger] t@[j]
            < g.nodes@.len(),
        r matches Some(t) ==> fallback_found(*g, region@, visited_nodes@, head, t@),
        r is None ==> forall|i: int, t: Seq<usize>|
            !(#[trigger] fallback_accepts(*g, region@, visited_nodes@, head, i, t)),
{
    let mut sub_region: Vec<usize> = Vec::new();
    sub_region.push(head);
    let mut i: usize = visited_nodes.len();
    proof {
        assert forall|x: usize| #[trigger]
            sub_region@.contains(x) <==> scanned_set(head, visited_nodes@, i as int).contains(
                x,
            ) by {
            if sub_region@.contains(x) {
                let j = choose|j: int| 0 <= j < sub_region@.len() && sub_region@[j] == x;
                assert(x == head);
            }
            if x == head {
                assert(sub_region@[0] == head);
            }
        }
    }
    while i > 0
        invariant
            i <= visited_nodes@.len(),
            g.wf(),
            g.caches_wf(),
            head < g.nodes@.len(),
            forall|j: int| 0 <= j < visited_nodes@.len() ==> #[trigger] visited_nodes@[j]
                < g.nodes@.len(),
            forall|j: int| 0 <= j < sub_region@.len() ==> #[trigger] sub_region@[j]
                < g.nodes@.len(),
            forall|j: int, k: int| 0 <= j < k < sub_region@.len() ==> sub_region@[j]
                != sub_region@[k],
            forall|x: usize| #[trigger]
                sub_region@.contains(x) <==> scanned_set(head, visited_nodes@, i as int).contains(
                    x,
                ),
            forall|k: int| i <= k < visited_nodes@.len() ==> region@.contains(
                #[trigger] visited_nodes@[k],
            ),
            forall|q: int, t: Seq<usize>|
                i <= q < visited_nodes@.len() ==> !(#[trigger] fallback_accepts(
                    *g,
                    region@,
                    visited_nodes@,
                    head,
                    q,
                    t,
                )),
        decreases i,
    {
        i = i - 1;
        let node = visited_nodes[i];
        proof {
            assert(visited_nodes@[i as int] == node);
        }
        if !contains_usize(region, node) {
            proof {
                assert forall|q: int, t: Seq<usize>| !(#[trigger] fallback_accepts(
                    *g,
                    region@,
                    visited_nodes@,
                    head,
                    q,
                    t,
                )) by {
                    if fallback_accepts(*g, region@, visited_nodes@, head, q, t) {
                        if q <= i {
                            assert(region@.contains(visited_nodes@[i as int]));
                        }
                    }
                }
            }
            return None;
        }
        let ghost before = sub_region@;
        if !contains_usize(&sub_region, node) {
            sub_region.push(node);
            proof {
                assert forall|j: int, k: int|
                    0 <= j < k < sub_region@.len() implies sub_region@[j] != sub_region@[k] by {
                    if k == sub_region@.len() - 1 {
                        assert(!before.contains(node));
                        assert(before[j] == sub_region@[j]);
                    }
                }
            }
        }
        proof {
            assert forall|x: usize| #[trigger]
                sub_region@.contains(x) <==> scanned_set(head, visited_nodes@, i as int).contains(
                    x,
                ) by {
                if sub_region@ == before.push(node) {
                    vstd::seq_lib::lemma_seq_contains_after_push(before, node, x);
                }
                if scanned_set(head, visited_nodes@, i as int).contains(x) {
                    if x != head {
                        let k = choose|k: int|
                            i <= k < visited_nodes@.len() && visited_nodes@[k] == x;
                        if k > i {
                            assert(scanned_set(head, visited_nodes@, i + 1).contains(x));
                        } else {
                            assert(x == node);
                            assert(sub_region@.contains(node));
                        }
                    }
                }
                if sub_region@.contains(x) {
                    if before.contains(x) {
                        assert(scanned_set(head, visited_nodes@, i + 1).contains(x));
                        if x != head {
                            let k = choose|k: int|
                                i + 1 <= k < visited_nodes@.len() && visited_nodes@[k] == x;
                        }
                    } else {
                        assert(x == node);
                        assert(visited_nodes@[i as int] == x);
                    }
                }
            }
        }
        let pdom_ok = g.post_dominates(node, &sub_region);
        if pdom_ok {
            let deg = out_degree(g, node);
            let tail_nodes: Vec<usize> = if deg <= 1 {
                let mut t: Vec<usize> = Vec::new();
                t.push(node);
                proof {
                    assert forall|j: int| 0 <= j < t@.len() implies #[trigger] t@[j]
                        < g.nodes@.len() by {
                        assert(t@[j] == node);
                    }
                    assert(t@ =~= seq![node]);
                    assert((at_most_one_out(*g, node) ==> t@ == seq![node]) && (!at_most_one_out(
                        *g,
                        node,
                    ) ==> forall|x: usize| #[trigger]
                        t@.contains(x) <==> (x < g.nodes@.len() && g.edges@.contains((x, node))
                            && !g.back_edges@.contains((x, node)))));
                }
                t
            } else {
                let preds = g.predecessors(node);
                let mut t: Vec<usize> = Vec::new();
                let mut p: usize = 0;
                while p < preds.len()
                    invariant
                        p <= preds@.len(),
                        g.wf(),
                        forall|j: int, k: int| 0 <= j < k < t@.len() ==> t@[j] != t@[k],
                        forall|v: usize| #[trigger]
                            preds@.contains(v) <==> (g.edges@.contains((v, node))
                                && !g.back_edges@.contains((v, node))),
                        forall|x: usize| #[trigger]
                            t@.contains(x) <==> (exists|j: int|
                                0 <= j < p && preds@[j] == x && x < g.nodes@.len()),
                    decreases preds@.len() - p,
                {
                    let ghost t_before = t@;
                    let c = preds[p];
                    proof {
                        assert(preds@[p as int] == c);
                    }
                    if c < g.nodes.len() && !contains_usize(&t, c) {
                        t.push(c);
                        proof {
                            assert forall|j: int, k: int|
                                0 <= j < k < t@.len() implies t@[j] != t@[k] by {
                                if k == t@.len() - 1 {
                                    assert(!t_before.contains(c));
                                    assert(t_before[j] == t@[j]);
                                }
                            }
                        }
                    }
                    proof {
                        assert forall|x: usize| #[trigger]
                            t@.contains(x) <==> (exists|j: int|
                                0 <= j < p + 1 && preds@[j] == x && x < g.nodes@.len()) by {
                            if t@ == t_before.push(c) {
                                vstd::seq_lib::lemma_seq_contains_after_push(t_before, c, x);
                            }
                            if exists|j: int|
                                0 <= j < p + 1 && preds@[j] == x && x < g.nodes@.len() {
                                let j = choose|j: int|
                                    0 <= j < p + 1 && preds@[j] == x && x < g.nodes@.len();
                                if j == p {
                                    assert(x == c);
                                    assert(t@.contains(c) || t_before.contains(c));
                                    if t@ == t_before {
                                        assert(t_before.contains(c));
                                    }
                                }
                            }
                        }
                    }
                    p = p + 1;
                }
                proof {
                    assert forall|x: usize| #[trigger]
                        t@.contains(x) <==> (x < g.nodes@.len() && g.edges@.contains((x, node))
                            && !g.back_edges@.contains((x, node))) by {
                        if t@.contains(x) {
                            let j = choose|j: int|
                                0 <= j < preds@.len() && preds@[j] == x && x < g.nodes@.len();
                            assert(preds@.contains(x));
                        }
                        if x < g.nodes@.len() && g.edges@.contains((x, node))
                            && !g.back_edges@.contains((x, node)) {
                            assert(preds@.contains(x));
                            let j = choose|j: int| 0 <= j < preds@.len() && preds@[j] == x;
                        }
                    }
                    assert forall|j: int| 0 <= j < t@.len() implies #[trigger] t@[j]
                        < g.nodes@.len() by {
                        assert(t@.contains(t@[j]));
                    }
                    assert((at_most_one_out(*g, node) ==> t@ == seq![node]) && (!at_most_one_out(
                        *g,
                        node,
                    ) ==> forall|x: usize| #[trigger]
                        t@.contains(x) <==> (x < g.nodes@.len() && g.edges@.contains((x, node))
                            && !g.back_edges@.contains((x, node)))));
                }
                t
            };
            // The candidate set and the exit set together, without
            // duplicates, for the code-node test.
            let mut with_tail: Vec<usize> = Vec::new();
            let mut q: usize = 0;
            while q < sub_region.len()
                invariant
                    q <= sub_region@.len(),
                    forall|j: int, k: int| 0 <= j < k < sub_region@.len() ==> sub_region@[j]
                        != sub_region@[k],
                    forall|j: int, k: int| 0 <= j < k < with_tail@.len() ==> with_tail@[j]
                        != with_tail@[k],
                    forall|x: usize| #[trigger]
                        with_tail@.contains(x) <==> (exists|j: int|
                            0 <= j < q && sub_region@[j] == x),
                decreases sub_region@.len() - q,
            {
                let ghost w_before = with_tail@;
                let x0 = sub_region[q];
                proof {
                    assert(sub_region@[q as int] == x0);
                }
                if !contains_usize(&with_tail, x0) {
                    with_tail.push(x0);
                    proof {
                        assert forall|j: int, k: int|
                            0 <= j < k < with_tail@.len() implies with_tail@[j] != with_tail@[k] by {
                            if k == with_tail@.len() - 1 {
                                assert(!w_before.contains(x0));
                                assert(w_before[j] == with_tail@[j]);
                            }
                        }
                    }
                }
                proof {
                    assert forall|x: usize| #[trigger]
                        with_tail@.contains(x) <==> (exists|j: int|
                            0 <= j < q + 1 && sub_region@[j] == x) by {
                        if with_tail@ == w_before.push(x0) {
                            vstd::seq_lib::lemma_seq_contains_after_push(w_before, x0, x);
                        }
                        if exists|j: int| 0 <= j < q + 1 && sub_region@[j] == x {
                            let j = choose|j: int| 0 <= j < q + 1 && sub_region@[j] == x;
                            if j == q {
                                assert(x == x0);
                                assert(with_tail@.contains(x0) || w_before.contains(x0));
                                if with_tail@ == w_before {
                                    assert(w_before.contains(x0));
                                }
                            }
                        }
                    }
                }
                q = q + 1;
            }
            let mut q2: usize = 0;
            while q2 < tail_nodes.len()
                invariant
                    q2 <= tail_nodes@.len(),
                    forall|j: int, k: int| 0 <= j < k < with_tail@.len() ==> with_tail@[j]
                        != with_tail@[k],
                    forall|x: usize| #[trigger]
                        with_tail@.contains(x) <==> (sub_region@.contains(x) || exists|j: int|
                            0 <= j < q2 && tail_nodes@[j] == x),
                decreases tail_nodes@.len() - q2,
            {
                let ghost w_before = with_tail@;
                let x0 = tail_nodes[q2];
                proof {
                    assert(tail_nodes@[q2 as int] == x0);
                }
                if !contains_usize(&with_tail, x0) {
                    with_tail.push(x0);
                    proof {
                        assert forall|j: int, k: int|
                            0 <= j < k < with_tail@.len() implies with_tail@[j] != with_tail@[k] by {
                            if k == with_tail@.len() - 1 {
                                assert(!w_before.contains(x0));
                                assert(w_before[j] == with_tail@[j]);
                            }
                        }
                    }
                }
                proof {
                    assert forall|x: usize| #[trigger]
                        with_tail@.contains(x) <==> (sub_region@.contains(x) || exists|j: int|
                            0 <= j < q2 + 1 && tail_nodes@[j] == x) by {
                        if with_tail@ == w_before.push(x0) {
                            vstd::seq_lib::lemma_seq_contains_after_push(w_before, x0, x);
                        }
                        if sub_region@.contains(x) || exists|j: int|
                            0 <= j < q2 + 1 && tail_nodes@[j] == x {
                            if !sub_region@.contains(x) && !(exists|j: int|
                                0 <= j < q2 && tail_nodes@[j] == x) {
                                let j = choose|j: int| 0 <= j < q2 + 1 && tail_nodes@[j] == x;
                                assert(j == q2);
                                assert(x == x0);
                                assert(with_tail@.contains(x0) || w_before.contains(x0));
                                if with_tail@ == w_before {
                                    assert(w_before.contains(x0));
                                }
                            }
                        }
                    }
                }
                q2 = q2 + 1;
            }
            proof {
                assert forall|x: usize| #[trigger]
                    with_tail@.contains(x) <==> (sub_region@.contains(x) || tail_nodes@.contains(
                        x,
                    )) by {
                    if tail_nodes@.contains(x) {
                        let j = choose|j: int| 0 <= j < tail_nodes@.len() && tail_nodes@[j] == x;
                    }
                    if with_tail@.contains(x) && !sub_region@.contains(x) {
                        let j = choose|j: int| 0 <= j < tail_nodes@.len() && tail_nodes@[j] == x;
                        assert(tail_nodes@.contains(x));
                    }
                }
            }
            let ccount = count_code_nodes(g, &with_tail);
            if ccount > 1 {
                proof {
                    let (x1, x2) = choose|x1: usize, x2: usize|
                        x1 != x2 && #[trigger] with_tail@.contains(x1) && is_code_node(*g, x1)
                            && #[trigger] with_tail@.contains(x2) && is_code_node(*g, x2);
                    assert(fallback_accepts(
                        *g,
                        region@,
                        visited_nodes@,
                        head,
                        i as int,
                        tail_nodes@,
                    )) by {
                        assert(visited_nodes@[i as int] == node);
                        assert forall|x: usize| #[trigger]
                            scanned_set(head, visited_nodes@, i as int).contains(
                                x,
                            ) implies g.spec_post_dominates(node as int, x as int) by {
                            assert(sub_region@.contains(x));
                            let j = choose|j: int|
                                0 <= j < sub_region@.len() && sub_region@[j] == x;
                        }
                        if at_most_one_out(*g, node) {
                            assert(tail_nodes@ =~= seq![node]);
                        }
                        assert((scanned_set(head, visited_nodes@, i as int).contains(x1)
                            || tail_nodes@.contains(x1)) && is_code_node(*g, x1));
                        assert((scanned_set(head, visited_nodes@, i as int).contains(x2)
                            || tail_nodes@.contains(x2)) && is_code_node(*g, x2));
                    }
                    assert(fallback_found(*g, region@, visited_nodes@, head, tail_nodes@)) by {
                        assert(fallback_accepts(
                            *g,
                            region@,
                            visited_nodes@,
                            head,
                            i as int,
                            tail_nodes@,
                        ));
                    }
                }
                return Some(tail_nodes);
            }
            proof {
                // The code-node test failed, so this position accepts no
                // exit set at all: any admissible set has the same members
                // as the one just tested.
                assert forall|t: Seq<usize>| !(#[trigger] fallback_accepts(
                    *g,
                    region@,
                    visited_nodes@,
                    head,
                    i as int,
                    t,
                )) by {
                    if fallback_accepts(*g, region@, visited_nodes@, head, i as int, t) {
                        assert(visited_nodes@[i as int] == node);
                        let (x1, x2) = choose|x1: usize, x2: usize|
                            x1 != x2 && (scanned_set(head, visited_nodes@, i as int).contains(x1)
                                || t.contains(x1)) && #[trigger] is_code_node(*g, x1) && (
                            scanned_set(head, visited_nodes@, i as int).contains(x2) || t.contains(
                                x2,
                            )) && #[trigger] is_code_node(*g, x2);
                        assert forall|x: usize| #[trigger]
                            t.contains(x) implies tail_nodes@.contains(x) by {
                            if at_most_one_out(*g, node) {
                                assert(t == seq![node]);
                                assert(tail_nodes@ == seq![node]);
                            }
                        }
                        assert(with_tail@.contains(x1)) by {
                            if scanned_set(head, visited_nodes@, i as int).contains(x1) {
                                assert(sub_region@.contains(x1));
                            } else {
                                assert(tail_nodes@.contains(x1));
                            }
                        }
                        assert(with_tail@.contains(x2)) by {
                            if scanned_set(head, visited_nodes@, i as int).contains(x2) {
                                assert(sub_region@.contains(x2));
                            } else {
                                assert(tail_nodes@.contains(x2));
                            }
                        }
                        assert(ccount >= 2);
                        assert(false);
                    }
                }
            }
        } else {
            proof {
                // The candidate does not post-dominate the scanned set, so
                // no exit set is accepted at this position.
                let bad = choose|j: int|
                    0 <= j < sub_region@.len() && !g.spec_post_dominates(
                        node as int,
                        #[trigger] sub_region@[j] as int,
                    );
                assert forall|t: Seq<usize>| !(#[trigger] fallback_accepts(
                    *g,
                    region@,
                    visited_nodes@,
                    head,
                    i as int,
                    t,
                )) by {
                    if fallback_accepts(*g, region@, visited_nodes@, head, i as int, t) {
                        assert(visited_nodes@[i as int] == node);
                        assert(sub_region@.contains(sub_region@[bad]));
                        assert(scanned_set(head, visited_nodes@, i as int).contains(
                            sub_region@[bad],
                        ));
                        assert(g.spec_post_dominates(node as int, sub_region@[bad] as int));
                        assert(false);
                    }
                }
            }
        }
    }
    None
}

/// `d` is an out-of-region immediate post-dominator of a region member.
pub open spec fn is_out_postdom(g: Graph, region: Seq<usize>, d: usize) -> bool {
    !region.contains(d) && exists|j: int|
        0 <= j < region.len() && g.post_dominators@[#[trigger] region[j] as int] == Some(d)
}

/// Resolve the exit set of an acyclic region, dispatching over three
/// strategies: when the exit candidates agree on at most one node, they are
/// the answer; when they disagree but the members' out-of-region immediate
/// post-dominators agree on at most one node, the candidates are still the
/// answer; otherwise the sub-region search over the visited list decides,
/// and a failed search means no exit was resolved this pass.
pub fn get_end_nodes(
    g: &Graph,
    visited_nodes: &Vec<usize>,
    cur_node: usize,
    region: &Vec<usize>,
) -> (r: Option<Vec<usize>>)
    requires
        g.wf(),
        g.caches_wf(),
        cur_node < g.nodes@.len(),
        forall|j: int| 0 <= j < region@.len() ==> #[trigger] region@[j] < g.nodes@.len(),
        forall|j: int| 0 <= j < visited_nodes@.len() ==> #[trigger] visited_nodes@[j]
            < g.nodes@.len(),
    ensures
        r matches Some(v) ==> forall|j: int| 0 <= j < v@.len() ==> #[trigger] v@[j]
            < g.nodes@.len(),
        (forall|d1: usize, d2: usize|
            #[trigger] is_end_successor(*g, region@, d1) && #[trigger] is_end_successor(
                *g,
                region@,
                d2,
            ) ==> d1 == d2) ==> (r matches Some(v) && forall|d: usize| #[trigger]
            v@.contains(d) <==> is_end_successor(*g, region@, d)),
        ((exists|d1: usize, d2: usize|
            d1 != d2 && #[trigger] is_end_successor(*g, region@, d1)
                && #[trigger] is_end_successor(*g, region@, d2)) && (forall|p1: usize, p2: usize|
            #[trigger] is_out_postdom(*g, region@, p1) && #[trigger] is_out_postdom(
                *g,
                region@,
                p2,
            ) ==> p1 == p2)) ==> (r matches Some(v) && forall|d: usize| #[trigger]
            v@.contains(d) <==> is_end_successor(*g, region@, d)),
        r matches Some(v) ==> (((exists|d1: usize, d2: usize|
            d1 != d2 && #[trigger] is_end_successor(*g, region@, d1)
                && #[trigger] is_end_successor(*g, region@, d2)) && (exists|p1: usize, p2: usize|
            p1 != p2 && #[trigger] is_out_postdom(*g, region@, p1) && #[trigger] is_out_postdom(
                *g,
                region@,
                p2,
            ))) ==> fallback_found(*g, region@, visited_nodes@, cur_node, v@)),
        r is None ==> ((exists|d1: usize, d2: usize|
            d1 != d2 && #[trigger] is_end_successor(*g, region@, d1)
                && #[trigger] is_end_successor(*g, region@, d2)) && (exists|p1: usize, p2: usize|
            p1 != p2 && #[trigger] is_out_postdom(*g, region@, p1) && #[trigger] is_out_postdom(
                *g,
                region@,
                p2,
            )) && (forall|i: int, t: Seq<usize>|
            !(#[trigger] fallback_accepts(*g, region@, visited_nodes@, cur_node, i, t)))),
{
    let end_nodes = get_end_successor_nodes(g, region);
    proof {
        assert forall|j: int| 0 <= j < end_nodes@.len() implies #[trigger] end_nodes@[j]
            < g.nodes@.len() by {
            assert(end_nodes@.contains(end_nodes@[j]));
        }
        if end_nodes@.len() >= 2 {
            assert(end_nodes@.contains(end_nodes@[0]) && end_nodes@.contains(end_nodes@[1]));
            assert(end_nodes@[0] != end_nodes@[1]);
            assert(is_end_successor(*g, region@, end_nodes@[0]) && is_end_successor(
                *g,
                region@,
                end_nodes@[1],
            ));
        }
        if forall|d1: usize, d2: usize|
            #[trigger] is_end_successor(*g, region@, d1) && #[trigger] is_end_successor(
                *g,
                region@,
                d2,
            ) ==> d1 == d2 {
            if end_nodes@.len() >= 2 {
                assert(false);
            }
        }
        if exists|d1: usize, d2: usize|
            d1 != d2 && #[trigger] is_end_successor(*g, region@, d1)
                && #[trigger] is_end_successor(*g, region@, d2) {
            let (d1, d2) = choose|d1: usize, d2: usize|
                d1 != d2 && #[trigger] is_end_successor(*g, region@, d1)
                    && #[trigger] is_end_successor(*g, region@, d2);
            assert(end_nodes@.contains(d1) && end_nodes@.contains(d2));
            let j1 = choose|j: int| 0 <= j < end_nodes@.len() && end_nodes@[j] == d1;
            let j2 = choose|j: int| 0 <= j < end_nodes@.len() && end_nodes@[j] == d2;
            assert(j1 != j2);
            assert(end_nodes@.len() >= 2);
        }
    }
    if end_nodes.len() <= 1 {
        return Some(end_nodes);
    }
    let postdom_nodes = get_postdom_nodes(g, region);
    proof {
        if postdom_nodes@.len() >= 2 {
            assert(postdom_nodes@.contains(postdom_nodes@[0]) && postdom_nodes@.contains(
                postdom_nodes@[1],
            ));
            assert(postdom_nodes@[0] != postdom_nodes@[1]);
            assert(is_out_postdom(*g, region@, postdom_nodes@[0]) && is_out_postdom(
                *g,
                region@,
                postdom_nodes@[1],
            ));
        }
        if forall|p1: usize, p2: usize|
            #[trigger] is_out_postdom(*g, region@, p1) && #[trigger] is_out_postdom(
                *g,
                region@,
                p2,
            ) ==> p1 == p2 {
            if postdom_nodes@.len() >= 2 {
                assert(false);
            }
        }
        if exists|p1: usize, p2: usize|
            p1 != p2 && #[trigger] is_out_postdom(*g, region@, p1) && #[trigger] is_out_postdom(
                *g,
                region@,
                p2,
            ) {
            let (p1, p2) = choose|p1: usize, p2: usize|
                p1 != p2 && #[trigger] is_out_postdom(*g, region@, p1)
                    && #[trigger] is_out_postdom(*g, region@, p2);
            assert(postdom_nodes@.contains(p1) && postdom_nodes@.contains(p2));
            let j1 = choose|j: int| 0 <= j < postdom_nodes@.len() && postdom_nodes@[j] == p1;
            let j2 = choose|j: int| 0 <= j < postdom_nodes@.len() && postdom_nodes@[j] == p2;
            assert(j1 != j2);
            assert(postdom_nodes@.len() >= 2);
        }
    }
    if postdom_nodes.len() <= 1 {
        return Some(end_nodes);
    }
    get_sub_region_end_nodes(g, visited_nodes, cur_node, region)
}

/// The sources of the recorded back edges into `head`.
fn back_edge_sources(g: &Graph, head: usize) -> (r: Vec<usize>)
    ensures
        forall|u: usize| #[trigger] r@.contains(u) ==> g.back_edges@.contains((u, head)),
{
    let mut out: Vec<usize> = Vec::new();
    let mut i: usize = 0;
    while i < g.back_edges.len()
        invariant
            i <= g.back_edges@.len(),
            forall|u: usize| #[trigger] out@.contains(u) ==> g.back_edges@.contains((u, head)),
        decreases g.back_edges@.len() - i,
    {
        let (a, b) = g.back_edges[i];
        if b == head && !contains_usize(&out, a) {
            let ghost before = out@;
            proof {
                assert(g.back_edges@[i as int] == (a, b));
                assert(g.back_edges@.contains((a, head)));
            }
            out.push(a);
            proof {
                assert forall|u: usize| #[trigger] out@.contains(u) implies g.back_edges@.contains(
                    (u, head),
                ) by {
                    vstd::seq_lib::lemma_seq_contains_after_push(before, a, u);
                }
            }
        }
        i = i + 1;
    }
    out
}

/// The head together with all of its strict dominator-tree descendants, or
/// nothing when the head is absent from the tree.
fn region_of(g: &Graph, cur: usize) -> (r: Option<Vec<usize>>)
    requires
        g.caches_wf(),
    ensures
        r matches Some(v) ==> (forall|j: int| 0 <= j < v@.len() ==> #[trigger] v@[j]
            < g.nodes@.len()) && (forall|j: int, k: int| 0 <= j < k < v@.len() ==> v@[j] != v@[k])
            && v@.contains(cur),
{
    match g.dominator_tree.find(cur) {
        Some(_) => {
            let mut ch = g.dominator_tree.all_children(cur);
            let ghost before = ch@;
            proof {
                if cur < g.nodes@.len() {
                    assert(!ch@.contains(cur));
                }
                if cur >= g.nodes@.len() {
                    assert(!ch@.contains(cur)) by {
                        if ch@.contains(cur) {
                            let j = choose|j: int| 0 <= j < ch@.len() && ch@[j] == cur;
                            assert(ch@[j] < g.dominator_tree.doms@.len());
                        }
                    }
                }
            }
            ch.push(cur);
            proof {
                assert(ch@[ch@.len() - 1] == cur);
                assert(ch@.contains(cur));
                assert forall|j: int, k: int| 0 <= j < k < ch@.len() implies ch@[j] != ch@[k] by {
                    if k == ch@.len() - 1 {
                        assert(!before.contains(cur));
                        assert(before[j] == ch@[j]);
                    }
                }
            }
            Some(ch)
        },
        None => None,
    }
}

/// `x` is removed when the acyclic region at `head` collapses: a region
/// member that is present, neither the head nor the root, and either no
/// exit member at all, or an exit member with no way onward while the
/// region spans the whole remaining graph.
pub open spec fn acyclic_removed(
    g: Graph,
    region: Seq<usize>,
    end_nodes: Seq<usize>,
    head: usize,
    x: usize,
) -> bool {
    &&& region.contains(x)
    &&& (!end_nodes.contains(x) || (region.len() == live_count(g.nodes@) && blind_sink(g, x)))
    &&& g.live(x as int)
    &&& x != head
    &&& x != g.root
}

/// What a well-formed collapse plan promises: a nonempty set of interior
/// nodes to remove, all present, none of them the head, the root or the
/// exit, no duplicates; and replacement successors that are present and
/// survive the removal.
pub open spec fn collapse_plan_ok(g: Graph, head: usize, plan: (Vec<usize>, Node, Vec<usize>)) -> bool {
    &&& plan.0@.len() >= 1
    &&& forall|x: usize| #[trigger]
        plan.0@.contains(x) ==> g.live(x as int) && x != head && x != g.root
    &&& forall|j: int, k: int| 0 <= j < k < plan.0@.len() ==> plan.0@[j] != plan.0@[k]
    &&& forall|x: usize| #[trigger] plan.2@.contains(x) ==> g.live(x as int) && !plan.0@.contains(x)
}

/// Append, for each listed node that is still present and not a
/// placeholder, its structured fragment; what was already in `parts` stays
/// in place.
fn push_fragments(g: &Graph, list: &Vec<usize>, parts: &mut Vec<Structured>)
    ensures
        old(parts)@.is_prefix_of(final(parts)@),
{
    let mut i: usize = 0;
    while i < list.len()
        invariant
            old(parts)@.is_prefix_of(parts@),
        decreases list@.len() - i,
    {
        let m = list[i];
        if m < g.nodes.len() {
            match &g.nodes[m] {
                Some(n) => {
                    match n {
                        Node::Virtual => {},
                        _ => {
                            let ghost before = parts@;
                            parts.push(node_to_structured(n));
                            proof {
                                assert(parts@.subrange(0, old(parts)@.len() as int)
                                    =~= before.subrange(0, old(parts)@.len() as int));
                            }
                        },
                    }
                },
                None => {},
            }
        }
        i = i + 1;
    }
}

/// Like `push_fragments`, but also skipping the nodes carrying either of
/// the two given labels: their fragments are already woven into the
/// conditional built from the head.
fn push_fragments_excluding(
    g: &Graph,
    list: &Vec<usize>,
    parts: &mut Vec<Structured>,
    skip1: crate::Label,
    skip2: crate::Label,
)
    ensures
        old(parts)@.is_prefix_of(final(parts)@),
{
    let mut i: usize = 0;
    while i < list.len()
        invariant
            old(parts)@.is_prefix_of(parts@),
        decreases list@.len() - i,
    {
        let m = list[i];
        if m < g.nodes.len() {
            match &g.nodes[m] {
                Some(n) => {
                    match n {
                        Node::Virtual => {},
                        _ => {
                            let l = n.label();
                            if l != skip1 && l != skip2 {
                                let ghost before = parts@;
                                parts.push(node_to_structured(n));
                                proof {
                                    assert(parts@.subrange(0, old(parts)@.len() as int)
                                        =~= before.subrange(0, old(parts)@.len() as int));
                                }
                            }
                        },
                    }
                },
                None => {},
            }
        }
        i = i + 1;
    }
}

/// The members of `from` that are present in the graph and survive removal
/// of `rem`: exactly the replacement successor list of a collapsed node.
fn surviving(g: &Graph, from: &Vec<usize>, rem: &Vec<usize>) -> (r: Vec<usize>)
    ensures
        forall|x: usize| #[trigger]
            r@.contains(x) <==> (from@.contains(x) && g.live(x as int) && !rem@.contains(x)),
{
    let mut out: Vec<usize> = Vec::new();
    let mut i: usize = 0;
    while i < from.len()
        invariant
            i <= from@.len(),
            forall|x: usize| #[trigger]
                out@.contains(x) <==> (exists|j: int|
                    0 <= j < i && from@[j] == x && g.live(x as int) && !rem@.contains(x)),
        decreases from@.len() - i,
    {
        let ghost before = out@;
        let s = from[i];
        proof {
            assert(from@[i as int] == s);
        }
        if s < g.nodes.len() && !contains_usize(rem, s) && g.nodes[s].is_some() {
            out.push(s);
        }
        proof {
            assert forall|x: usize| #[trigger]
                out@.contains(x) <==> (exists|j: int|
                    0 <= j < i + 1 && from@[j] == x && g.live(x as int) && !rem@.contains(
                        x,
                    )) by {
                if out@ == before.push(s) {
                    vstd::seq_lib::lemma_seq_contains_after_push(before, s, x);
                }
                if out@.contains(x) && !before.contains(x) {
                    assert(from@[i as int] == x);
                }
                if exists|j: int|
                    0 <= j < i + 1 && from@[j] == x && g.live(x as int) && !rem@.contains(x) {
                    let j = choose|j: int|
                        0 <= j < i + 1 && from@[j] == x && g.live(x as int) && !rem@.contains(x);
                    if j == i {
                        assert(x == s);
                        assert(out@.contains(s));
                    } else {
                        assert(before.contains(x));
                        if out@ == before.push(s) {
                        }
                    }
                }
            }
        }
        i = i + 1;
    }
    proof {
        assert forall|x: usize| #[trigger]
            out@.contains(x) <==> (from@.contains(x) && g.live(x as int) && !rem@.contains(
                x,
            )) by {
            if out@.contains(x) {
                let j = choose|j: int|
                    0 <= j < from@.len() && from@[j] == x && g.live(x as int) && !rem@.contains(x);
                assert(from@.contains(x));
            }
            if from@.contains(x) && g.live(x as int) && !rem@.contains(x) {
                let j = choose|j: int| 0 <= j < from@.len() && from@[j] == x;
            }
        }
    }
    out
}

/// Keep the members of `candidates` that may be removed when collapsing at
/// `head`: exactly those present and neither the head nor the root, each
/// listed once.
fn removable(g: &Graph, candidates: &Vec<usize>, head: usize) -> (r: Vec<usize>)
    ensures
        forall|x: usize| #[trigger]
            r@.contains(x) <==> (candidates@.contains(x) && g.live(x as int) && x != head && x
                != g.root),
        forall|j: int, k: int| 0 <= j < k < r@.len() ==> r@[j] != r@[k],
{
    let mut out: Vec<usize> = Vec::new();
    let mut i: usize = 0;
    while i < candidates.len()
        invariant
            i <= candidates@.len(),
            forall|x: usize| #[trigger]
                out@.contains(x) <==> (exists|j: int|
                    0 <= j < i && candidates@[j] == x && g.live(x as int) && x != head && x
                        != g.root),
            forall|j: int, k: int| 0 <= j < k < out@.len() ==> out@[j] != out@[k],
        decreases candidates@.len() - i,
    {
        let ghost before = out@;
        let c = candidates[i];
        proof {
            assert(candidates@[i as int] == c);
        }
        if c < g.nodes.len() && c != head && c != g.root && !contains_usize(&out, c)
            && g.nodes[c].is_some() {
            out.push(c);
            proof {
                assert forall|j: int, k: int|
                    0 <= j < k < out@.len() implies out@[j] != out@[k] by {
                    if k == out@.len() - 1 {
                        assert(!before.contains(c));
                        assert(before[j] == out@[j]);
                    }
                }
            }
        }
        proof {
            assert forall|x: usize| #[trigger]
                out@.contains(x) <==> (exists|j: int|
                    0 <= j < i + 1 && candidates@[j] == x && g.live(x as int) && x != head && x
                        != g.root) by {
                if out@ == before.push(c) {
                    vstd::seq_lib::lemma_seq_contains_after_push(before, c, x);
                }
                if out@.contains(x) && !before.contains(x) {
                    assert(candidates@[i as int] == x);
                }
                if exists|j: int|
                    0 <= j < i + 1 && candidates@[j] == x && g.live(x as int) && x != head && x
                        != g.root {
                    let j = choose|j: int|
                        0 <= j < i + 1 && candidates@[j] == x && g.live(x as int) && x != head
                            && x != g.root;
                    if j == i {
                        assert(x == c);
                        assert(out@.contains(c) || before.contains(c));
                        if out@ == before {
                            assert(before.contains(c));
                        }
                    } else {
                        assert(before.contains(x));
                    }
                }
            }
        }
        i = i + 1;
    }
    proof {
        assert forall|x: usize| #[trigger]
            out@.contains(x) <==> (candidates@.contains(x) && g.live(x as int) && x != head && x
                != g.root) by {
            if out@.contains(x) {
                let j = choose|j: int|
                    0 <= j < candidates@.len() && candidates@[j] == x && g.live(x as int) && x
                        != head && x != g.root;
                assert(candidates@.contains(x));
            }
            if candidates@.contains(x) && g.live(x as int) && x != head && x != g.root {
                let j = choose|j: int| 0 <= j < candidates@.len() && candidates@[j] == x;
            }
        }
    }
    out
}

/// Out-of-region successors of the region's members, in the back-edge-blind
/// view: exactly where control continues after the collapse, each listed
/// once.
fn region_exits(g: &Graph, region: &Vec<usize>) -> (r: Vec<usize>)
    ensures
        forall|x: usize| #[trigger]
            r@.contains(x) <==> (!region@.contains(x) && exists|m: usize|
                region@.contains(m) && g.edges@.contains((m, x)) && !g.back_edges@.contains(
                    (m, x),
                )),
{
    let mut out: Vec<usize> = Vec::new();
    let mut i: usize = 0;
    while i < region.len()
        invariant
            i <= region@.len(),
            forall|x: usize| #[trigger]
                out@.contains(x) <==> (!region@.contains(x) && exists|j: int|
                    0 <= j < i && g.edges@.contains((#[trigger] region@[j], x))
                        && !g.back_edges@.contains((region@[j], x))),
        decreases region@.len() - i,
    {
        let m = region[i];
        proof {
            assert(region@[i as int] == m);
        }
        let succs = g.successors(m);
        let mut t: usize = 0;
        while t < succs.len()
            invariant
                t <= succs@.len(),
                i < region@.len(),
                m == region@[i as int],
                forall|v: usize| #[trigger]
                    succs@.contains(v) <==> (g.edges@.contains((m, v)) && !g.back_edges@.contains(
                        (m, v),
                    )),
                forall|x: usize| #[trigger]
                    out@.contains(x) <==> (!region@.contains(x) && ((exists|j: int|
                        0 <= j < i && g.edges@.contains((#[trigger] region@[j], x))
                            && !g.back_edges@.contains((region@[j], x))) || (exists|q: int|
                        0 <= q < t && succs@[q] == x))),
            decreases succs@.len() - t,
        {
            let ghost before = out@;
            let v = succs[t];
            proof {
                assert(succs@[t as int] == v);
                assert(succs@.contains(v));
            }
            if !contains_usize(region, v) && !contains_usize(&out, v) {
                out.push(v);
            }
            proof {
                assert forall|x: usize| #[trigger]
                    out@.contains(x) <==> (!region@.contains(x) && ((exists|j: int|
                        0 <= j < i && g.edges@.contains((#[trigger] region@[j], x))
                            && !g.back_edges@.contains((region@[j], x))) || (exists|q: int|
                        0 <= q < t + 1 && succs@[q] == x))) by {
                    if out@ == before.push(v) {
                        vstd::seq_lib::lemma_seq_contains_after_push(before, v, x);
                    }
                    if !region@.contains(x) && exists|q: int| 0 <= q < t + 1 && succs@[q] == x {
                        let q = choose|q: int| 0 <= q < t + 1 && succs@[q] == x;
                        if q == t {
                            assert(x == v);
                            assert(out@.contains(v) || before.contains(v));
                            if out@ == before {
                                assert(before.contains(v));
                            }
                        }
                    }
                }
            }
            t = t + 1;
        }
        proof {
            assert forall|x: usize| #[trigger]
                out@.contains(x) <==> (!region@.contains(x) && exists|j: int|
                    0 <= j < i + 1 && g.edges@.contains((#[trigger] region@[j], x))
                        && !g.back_edges@.contains((region@[j], x))) by {
                if out@.contains(x) && !region@.contains(x) {
                    if exists|q: int| 0 <= q < succs@.len() && succs@[q] == x {
                        let q = choose|q: int| 0 <= q < succs@.len() && succs@[q] == x;
                        assert(succs@.contains(x));
                        assert(g.edges@.contains((region@[i as int], x))
                            && !g.back_edges@.contains((region@[i as int], x)));
                    }
                }
                if !region@.contains(x) && exists|j: int|
                    0 <= j < i + 1 && g.edges@.contains((#[trigger] region@[j], x))
                        && !g.back_edges@.contains((region@[j], x)) {
                    let j = choose|j: int|
                        0 <= j < i + 1 && g.edges@.contains((#[trigger] region@[j], x))
                            && !g.back_edges@.contains((region@[j], x));
                    if j == i {
                        assert(succs@.contains(x));
                        let q = choose|q: int| 0 <= q < succs@.len() && succs@[q] == x;
                    }
                }
            }
        }
        i = i + 1;
    }
    proof {
        assert forall|x: usize| #[trigger]
            out@.contains(x) <==> (!region@.contains(x) && exists|m: usize|
                region@.contains(m) && g.edges@.contains((m, x)) && !g.back_edges@.contains(
                    (m, x),
                )) by {
            if out@.contains(x) {
                let j = choose|j: int|
                    0 <= j < region@.len() && g.edges@.contains((#[trigger] region@[j], x))
                        && !g.back_edges@.contains((region@[j], x));
                assert(region@.contains(region@[j]));
                assert(region@.contains(region@[j]) && g.edges@.contains((region@[j], x))
                    && !g.back_edges@.contains((region@[j], x)));
            }
            if !region@.contains(x) && exists|m: usize|
                region@.contains(m) && g.edges@.contains((m, x)) && !g.back_edges@.contains(
                    (m, x),
                ) {
                let m = choose|m: usize|
                    region@.contains(m) && g.edges@.contains((m, x)) && !g.back_edges@.contains(
                        (m, x),
                    );
                let j = choose|j: int| 0 <= j < region@.len() && region@[j] == m;
                assert(g.edges@.contains((region@[j], x)));
            }
        }
    }
    out
}

/// Collapse a cyclic region: the loop head together with its latches becomes
/// a single `Loop`, or a `WhileLoop` over the head's simplified test when
/// the head carries one, the body ending in a `Break` that stands for the
/// exits out of the loop. Succeeds exactly when some latch is removable;
/// the removed set is exactly the removable latches, and the successors are
/// exactly the present out-of-region blind successors of the loop.
pub fn structure_cyclic(g: &Graph, head: usize, latches: &Vec<usize>) -> (r: Option<
    (Vec<usize>, Node, Vec<usize>),
>)
    requires
        g.wf(),
        g.caches_wf(),
        g.live(head as int),
    ensures
        r matches Some(plan) ==> collapse_plan_ok(*g, head, plan) && (plan.1 matches
            Node::Structured(l, _) && l == g.nodes@[head as int]->0.spec_label()),
        r is Some <==> exists|x: usize| #[trigger]
            latches@.contains(x) && g.live(x as int) && x != head && x != g.root,
        r matches Some(plan) ==> forall|x: usize| #[trigger]
            plan.0@.contains(x) <==> (latches@.contains(x) && g.live(x as int) && x != head && x
                != g.root),
        r matches Some(plan) ==> forall|x: usize| #[trigger]
            plan.2@.contains(x) <==> (!plan.0@.push(head).contains(x) && g.live(x as int)
                && exists|m: usize|
                plan.0@.push(head).contains(m) && g.edges@.contains((m, x))
                    && !g.back_edges@.contains((m, x))),
        r matches Some(plan) ==> (match g.nodes@[head as int]->0 {
            Node::Conditional { test: t0, .. } => plan.1->1 matches Structured::WhileLoop {
                test: t1,
                ..
            } && t1.model() == crate::cond::simp(t0.model()),
            _ => plan.1->1 is Loop,
        }),
{
    let rem = removable(g, latches, head);
    if rem.is_empty() {
        proof {
            if exists|x: usize| #[trigger]
                latches@.contains(x) && g.live(x as int) && x != head && x != g.root {
                let x = choose|x: usize| #[trigger]
                    latches@.contains(x) && g.live(x as int) && x != head && x != g.root;
                assert(rem@.contains(x));
            }
        }
        return None;
    }
    proof {
        assert(rem@.contains(rem@[0]));
    }
    let mut region: Vec<usize> = Vec::new();
    let mut i: usize = 0;
    while i < rem.len()
        invariant
            i <= rem@.len(),
            region@ =~= rem@.subrange(0, i as int),
        decreases rem@.len() - i,
    {
        region.push(rem[i]);
        proof {
            assert(region@ =~= rem@.subrange(0, i + 1 as int));
        }
        i = i + 1;
    }
    region.push(head);
    proof {
        assert(rem@.subrange(0, rem@.len() as int) =~= rem@);
        assert(region@ == rem@.push(head));
    }
    let exits = region_exits(g, &region);
    let succs = surviving(g, &exits, &rem);
    proof {
        assert forall|x: usize| #[trigger]
            succs@.contains(x) <==> (!rem@.push(head).contains(x) && g.live(x as int) && exists|
                m: usize,
            |
                rem@.push(head).contains(m) && g.edges@.contains((m, x))
                    && !g.back_edges@.contains((m, x))) by {
            if succs@.contains(x) {
                assert(exits@.contains(x));
            }
            if !rem@.push(head).contains(x) && g.live(x as int) && exists|m: usize|
                rem@.push(head).contains(m) && g.edges@.contains((m, x))
                    && !g.back_edges@.contains((m, x)) {
                assert(exits@.contains(x));
                assert(!rem@.contains(x)) by {
                    vstd::seq_lib::lemma_seq_contains_after_push(rem@, head, x);
                }
            }
        }
    }
    let mut body: Vec<Structured> = Vec::new();
    let payload = match &g.nodes[head] {
        Some(head_node) => {
            match head_node {
                Node::Conditional { label, test, .. } => {
                    push_fragments(g, &rem, &mut body);
                    body.push(Structured::Break);
                    let w = Structured::WhileLoop {
                        test: test.simplify(),
                        body: Box::new(Structured::Sequence(body)),
                    };
                    Node::Structured(*label, w)
                },
                _ => {
                    body.push(node_to_structured(head_node));
                    push_fragments(g, &rem, &mut body);
                    body.push(Structured::Break);
                    let l = Structured::Loop { body: Box::new(Structured::Sequence(body)) };
                    Node::Structured(head_node.label(), l)
                },
            }
        },
        None => {
            return None;
        },
    };
    Some((rem, payload, succs))
}

/// Collapse an acyclic region rooted at `head`: a branch head becomes an
/// `If` over its simplified test with the branch-target fragments as its
/// arms, followed by the remaining interior fragments; a straight-line head
/// a `Sequence` opening with its own block. Succeeds exactly when some
/// interior node is removable; the removed set is exactly the removable
/// interior (an exit member with no way onward counts as interior only when
/// the region spans the whole remaining graph), and the successors are
/// exactly the surviving exit members.
pub fn structure_acyclic(
    g: &Graph,
    head: usize,
    region: &Vec<usize>,
    end_nodes: &Vec<usize>,
) -> (r: Option<(Vec<usize>, Node, Vec<usize>)>)
    requires
        g.wf(),
        g.caches_wf(),
        g.live(head as int),
    ensures
        r matches Some(plan) ==> collapse_plan_ok(*g, head, plan) && (plan.1 matches
            Node::Structured(l, _) && l == g.nodes@[head as int]->0.spec_label()),
        r is Some <==> exists|x: usize| #[trigger] acyclic_removed(*g, region@, end_nodes@, head, x),
        r matches Some(plan) ==> forall|x: usize| #[trigger]
            plan.0@.contains(x) <==> acyclic_removed(*g, region@, end_nodes@, head, x),
        r matches Some(plan) ==> forall|x: usize| #[trigger]
            plan.2@.contains(x) <==> (end_nodes@.contains(x) && g.live(x as int)
                && !plan.0@.contains(x)),
        r matches Some(plan) ==> (match g.nodes@[head as int]->0 {
            Node::Conditional { test: t0, .. } => plan.1->1 matches Structured::Sequence(ps)
                && ps@.len() >= 1 && (ps@[0] matches Structured::If { test: t1, .. } && t1.model()
                == crate::cond::simp(t0.model())),
            Node::Code { id, .. } => plan.1->1 matches Structured::Sequence(ps) && ps@.len() >= 1
                && ps@[0] == Structured::CodeBlock(id),
            _ => plan.1->1 is Sequence,
        }),
{
    // The interior: region members outside the exit set. An exit member
    // with no way onward is absorbed too, but only when the region already
    // spans the whole remaining graph: otherwise it stays as the point the
    // collapsed node continues to.
    let whole = region.len() == g.node_count();
    let mut interior: Vec<usize> = Vec::new();
    let mut i: usize = 0;
    while i < region.len()
        invariant
            i <= region@.len(),
            whole == (region@.len() == live_count(g.nodes@)),
            forall|x: usize| #[trigger]
                interior@.contains(x) <==> (exists|j: int|
                    0 <= j < i && region@[j] == x && (!end_nodes@.contains(x) || (whole
                        && blind_sink(*g, x)))),
        decreases region@.len() - i,
    {
        let ghost before = interior@;
        let m = region[i];
        proof {
            assert(region@[i as int] == m);
        }
        if !contains_usize(end_nodes, m) {
            interior.push(m);
        } else if whole {
            let m_succs = g.successors(m);
            let ghost is_sink = blind_sink(*g, m);
            proof {
                if m_succs.len() == 0 {
                    assert forall|w: usize| !(g.edges@.contains((m, w))
                        && !g.back_edges@.contains((m, w))) by {
                        if g.edges@.contains((m, w)) && !g.back_edges@.contains((m, w)) {
                            assert(m_succs@.contains(w));
                        }
                    }
                    assert(is_sink);
                } else {
                    assert(m_succs@.contains(m_succs@[0]));
                    assert(!is_sink);
                }
            }
            if m_succs.is_empty() {
                interior.push(m);
            }
        }
        proof {
            assert forall|x: usize| #[trigger]
                interior@.contains(x) <==> (exists|j: int|
                    0 <= j < i + 1 && region@[j] == x && (!end_nodes@.contains(x) || (whole
                        && blind_sink(*g, x)))) by {
                if interior@ == before.push(m) {
                    vstd::seq_lib::lemma_seq_contains_after_push(before, m, x);
                }
                if exists|j: int|
                    0 <= j < i + 1 && region@[j] == x && (!end_nodes@.contains(x) || (whole
                        && blind_sink(*g, x))) {
                    let j = choose|j: int|
                        0 <= j < i + 1 && region@[j] == x && (!end_nodes@.contains(x) || (whole
                            && blind_sink(*g, x)));
                    if j == i {
                        assert(x == m);
                        assert(interior@.contains(m) || before.contains(m));
                        if interior@ == before {
                            assert(before.contains(m));
                        }
                    } else {
                        assert(before.contains(x));
                    }
                }
            }
        }
        i = i + 1;
    }
    proof {
        assert forall|x: usize| #[trigger]
            interior@.contains(x) <==> (region@.contains(x) && (!end_nodes@.contains(x) || (whole
                && blind_sink(*g, x)))) by {
            if interior@.contains(x) {
                let j = choose|j: int|
                    0 <= j < region@.len() && region@[j] == x && (!end_nodes@.contains(x) || (
                    whole && blind_sink(*g, x)));
                assert(region@.contains(x));
            }
            if region@.contains(x) && (!end_nodes@.contains(x) || (whole && blind_sink(*g, x))) {
                let j = choose|j: int| 0 <= j < region@.len() && region@[j] == x;
            }
        }
    }
    let rem = removable(g, &interior, head);
    proof {
        assert forall|x: usize| #[trigger]
            rem@.contains(x) <==> acyclic_removed(*g, region@, end_nodes@, head, x) by {
            assert(rem@.contains(x) <==> (interior@.contains(x) && g.live(x as int) && x != head
                && x != g.root));
        }
    }
    if rem.is_empty() {
        proof {
            if exists|x: usize| #[trigger] acyclic_removed(*g, region@, end_nodes@, head, x) {
                let x = choose|x: usize| #[trigger] acyclic_removed(
                    *g,
                    region@,
                    end_nodes@,
                    head,
                    x,
                );
                assert(rem@.contains(x));
            }
        }
        return None;
    }
    proof {
        assert(rem@.contains(rem@[0]));
    }
    let succs = surviving(g, end_nodes, &rem);
    let payload = match &g.nodes[head] {
        Some(head_node) => {
            match head_node {
                Node::Conditional { label, test, conseq, alt } => {
                    let conseq_s = fragment_with_label(g, &rem, *conseq);
                    let alt_s = fragment_with_label(g, &rem, *alt);
                    let cond = Structured::If {
                        test: test.simplify(),
                        conseq: Box::new(
                            match conseq_s {
                                Some(s) => s,
                                None => Structured::Sequence(Vec::new()),
                            },
                        ),
                        alt: match alt_s {
                            Some(s) => Some(Box::new(s)),
                            None => None,
                        },
                    };
                    let mut seq_parts: Vec<Structured> = Vec::new();
                    seq_parts.push(cond);
                    let ghost pre = seq_parts@;
                    push_fragments_excluding(g, &rem, &mut seq_parts, *conseq, *alt);
                    proof {
                        assert(pre.is_prefix_of(seq_parts@));
                        assert(seq_parts@.subrange(0, 1) =~= pre);
                        assert(seq_parts@[0] == pre[0]);
                    }
                    Node::Structured(*label, Structured::Sequence(seq_parts))
                },
                Node::Code { label, id, .. } => {
                    let mut parts: Vec<Structured> = Vec::new();
                    parts.push(Structured::CodeBlock(*id));
                    let ghost pre = parts@;
                    push_fragments(g, &rem, &mut parts);
                    proof {
                        assert(pre.is_prefix_of(parts@));
                        assert(parts@.subrange(0, 1) =~= pre);
                        assert(parts@[0] == pre[0]);
                    }
                    Node::Structured(*label, Structured::Sequence(parts))
                },
                Node::Structured(label, s) => {
                    let mut parts: Vec<Structured> = Vec::new();
                    parts.push(clone_structured(s));
                    push_fragments(g, &rem, &mut parts);
                    Node::Structured(*label, Structured::Sequence(parts))
                },
                Node::Virtual => {
                    let mut parts: Vec<Structured> = Vec::new();
                    push_fragments(g, &rem, &mut parts);
                    Node::Structured(Node::Virtual.label(), Structured::Sequence(parts))
                },
            }
        },
        None => {
            return None;
        },
    };
    Some((rem, payload, succs))
}

/// The structured fragment of the listed node that carries the wanted
/// label, if any does.
fn fragment_with_label(g: &Graph, list: &Vec<usize>, want: crate::Label) -> Option<Structured> {
    let mut i: usize = 0;
    while i < list.len()
        decreases list@.len() - i,
    {
        let m = list[i];
        if m < g.nodes.len() {
            match &g.nodes[m] {
                Some(n) => {
                    if n.label() == want {
                        return Some(node_to_structured(n));
                    }
                },
                None => {},
            }
        }
        i = i + 1;
    }
    None
}

/// Run the reduction loop to a single node: per pass, rebuild the analyses,
/// walk a depth-first postorder from the root, collapse the first cyclic or
/// acyclic region found, and start over. Stops with `Irreducible` when a
/// full pass collapses nothing, and with `Analysis` when a dominator
/// relation cannot be rebuilt; each collapse strictly lowers the node count,
/// so at most one fewer collapses happen than the graph has nodes.
pub fn reduce(g: &mut Graph) -> (r: Result<(), StructureError>)
    requires
        old(g).wf(),
    ensures
        final(g).wf(),
        r is Ok ==> live_count(final(g).nodes@) == 1,
        r is Ok ==> forall|i: int|
            0 <= i < final(g).nodes@.len() && #[trigger] final(g).nodes@[i] is Some ==> i
                == final(g).root,
        r is Ok && live_count(old(g).nodes@) > 1 ==> final(g).nodes@[final(g).root as int]->0
            is Structured,
        r matches Err(StructureError::Analysis) ==> !(final(g).nodes@.len() < u32::MAX as usize
            && final(g).edges@.len() < u32::MAX as usize && crate::doms::doms_wf(
            crate::doms::idoms_of(final(g).nodes@.len() as usize, final(g).edges@, final(g).root),
            final(g).root as int,
        ) && crate::doms::doms_wf(
            crate::doms::idoms_of(
                final(g).nodes@.len() as usize,
                crate::graph::rev_edges(final(g).edges@),
                final(g).return_,
            ),
            final(g).return_ as int,
        )),
        r matches Err(StructureError::Irreducible) ==> live_count(final(g).nodes@) > 1
            && final(g).caches_wf(),
{
    let mut count = g.node_count();
    while count > 1
        invariant
            g.wf(),
            count == live_count(g.nodes@),
            count == 1 && live_count(old(g).nodes@) > 1 ==> g.nodes@[g.root as int] is Some
                && g.nodes@[g.root as int]->0 is Structured,
        decreases count,
    {
        if !g.recompute_info() {
            return Err(StructureError::Analysis);
        }
        let order = g.dfs_post_order();
        let mut visited_nodes: Vec<usize> = Vec::new();
        let mut collapsed = false;
        let mut idx: usize = 0;
        while idx < order.len() && !collapsed
            invariant
                idx <= order@.len(),
                g.wf(),
                !collapsed ==> g.caches_wf(),
                count == live_count(g.nodes@) || collapsed,
                collapsed ==> live_count(g.nodes@) < count,
                collapsed && live_count(g.nodes@) == 1 ==> g.nodes@[g.root as int] is Some
                    && g.nodes@[g.root as int]->0 is Structured,
                forall|j: int| 0 <= j < order@.len() ==> #[trigger] order@[j] < g.nodes@.len(),
                forall|j: int| 0 <= j < visited_nodes@.len() ==> #[trigger] visited_nodes@[j]
                    < g.nodes@.len(),
            decreases order@.len() - idx,
        {
            let cur = order[idx];
            let cur_live = g.nodes[cur].is_some();
            if cur_live {
                if contains_usize(&g.loop_heads, cur) {
                    // A loop head: try to collapse the cycle through its
                    // latches.
                    let latches = back_edge_sources(g, cur);
                    match structure_cyclic(g, cur, &latches) {
                        Some((rem, payload, succs)) => {
                            g.update(cur, &rem, payload, &succs);
                            proof {
                                if live_count(g.nodes@) == 1 {
                                    if cur != g.root {
                                        crate::graph::lemma_live_count_two(
                                            g.nodes@,
                                            if cur < g.root {
                                                cur as int
                                            } else {
                                                g.root as int
                                            },
                                            if cur < g.root {
                                                g.root as int
                                            } else {
                                                cur as int
                                            },
                                        );
                                    }
                                }
                            }
                            collapsed = true;
                        },
                        None => {},
                    }
                } else {
                    match region_of(g, cur) {
                        Some(region) => {
                            if region.len() > 1 {
                                match get_end_nodes(g, &visited_nodes, cur, &region) {
                                    Some(end_nodes) => {
                                        match structure_acyclic(g, cur, &region, &end_nodes) {
                                            Some((rem, payload, succs)) => {
                                                g.update(cur, &rem, payload, &succs);
                                                proof {
                                                    if live_count(g.nodes@) == 1 {
                                                        if cur != g.root {
                                                            crate::graph::lemma_live_count_two(
                                                                g.nodes@,
                                                                if cur < g.root {
                                                                    cur as int
                                                                } else {
                                                                    g.root as int
                                                                },
                                                                if cur < g.root {
                                                                    g.root as int
                                                                } else {
                                                                    cur as int
                                                                },
                                                            );
                                                        }
                                                    }
                                                }
                                                collapsed = true;
                                            },
                                            None => {},
                                        }
                                    },
                                    None => {},
                                }
                            }
                        },
                        None => {},
                    }
                }
            }
            if !collapsed {
                visited_nodes.push(cur);
            }
            idx = idx + 1;
        }
        if collapsed {
            count = g.node_count();
        } else {
            return Err(StructureError::Irreducible);
        }
    }
    proof {
        crate::graph::lemma_live_count_pos(g.nodes@, g.root as int);
        assert forall|i: int|
            0 <= i < g.nodes@.len() && #[trigger] g.nodes@[i] is Some implies i == g.root by {
            if i != g.root {
                crate::graph::lemma_live_count_two(
                    g.nodes@,
                    if i < g.root {
                        i
                    } else {
                        g.root as int
                    },
                    if i < g.root {
                        g.root as int
                    } else {
                        i
                    },
                );
            }
        }
    }
    Ok(())
}

/// Region collapse monotonicity: every successful collapse strictly lowers
/// the live node count and no count drops below one, so a run whose
/// successive counts are `counts` performs at most `counts[0] - 1`
/// collapses: the run is no longer than its starting count.
pub proof fn lemma_collapse_bound(counts: Seq<int>)
    requires
        counts.len() >= 1,
        forall|i: int| 0 <= i < counts.len() - 1 ==> #[trigger] counts[i + 1] < counts[i],
        forall|i: int| 0 <= i < counts.len() ==> #[trigger] counts[i] >= 1,
    ensures
        counts.len() <= counts[0],
    decreases counts.len(),
{
    if counts.len() > 1 {
        let rest = counts.drop_first();
        assert forall|i: int| 0 <= i < rest.len() - 1 implies #[trigger] rest[i + 1] < rest[i] by {
            assert(rest[i + 1] == counts[i + 2]);
            assert(rest[i] == counts[i + 1]);
        }
        assert forall|i: int| 0 <= i < rest.len() implies #[trigger] rest[i] >= 1 by {
            assert(rest[i] == counts[i + 1]);
        }
        lemma_collapse_bound(rest);
        assert(rest[0] == counts[1]);
    }
}

} // verus!
