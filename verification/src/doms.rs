//! Immediate-dominator relations: the trusted call into petgraph that
//! computes one, the structural soundness check every relation must pass
//! before the analyses use it, and the dominator tree queries that walk its
//! chains.

use vstd::prelude::*;

verus! {

/// The immediate-dominator relation that petgraph's dominator computation
/// returns for a graph given as an edge list over nodes `0 .. n`, rooted at
/// `root`. Stated as a name: the relation is a function of the graph alone,
/// but writing it out would amount to restating the algorithm.
pub uninterp spec fn idoms_of(n: usize, edges: Seq<(usize, usize)>, root: usize) -> Seq<
    Option<usize>,
>;

/// Relies on `petgraph::algo::dominators::simple_fast`, fed a graph built
/// from the plain edge list over nodes `0 .. n`. Its `immediate_dominator`
/// accessor answers `None` for the root itself and for every node not
/// reachable from the root, and an index of the graph handed in, hence
/// below `n`, for the rest. The result depends on the arguments alone, so
/// it carries the name `idoms_of`. petgraph's graphs default to 32-bit
/// indices and abort once the node or edge count reaches that limit, so
/// the counts must stay below it.
#[verifier::external_body]
pub(crate) fn petgraph_idoms(n: usize, edges: &Vec<(usize, usize)>, root: usize) -> (r: Vec<Option<usize>>)
    requires
        root < n,
        n < u32::MAX as usize,
        edges@.len() < u32::MAX as usize,
        forall|i: int| 0 <= i < edges@.len() ==> (#[trigger] edges@[i]).0 < n && edges@[i].1 < n,
    ensures
        r@ == idoms_of(n, edges@, root),
        r@.len() == n,
        r@[root as int] is None,
        forall|i: int| 0 <= i < n && #[trigger] r@[i] is Some ==> r@[i]->0 < n,
{
    let mut g = petgraph::graph::DiGraph::<(), ()>::new();
    for _ in 0..n {
        g.add_node(());
    }
    for &(a, b) in edges.iter() {
        g.add_edge(petgraph::graph::NodeIndex::new(a), petgraph::graph::NodeIndex::new(b), ());
    }
    let doms = petgraph::algo::dominators::simple_fast(&g, petgraph::graph::NodeIndex::new(root));
    (0..n).map(|i| doms.immediate_dominator(petgraph::graph::NodeIndex::new(i)).map(|d| d.index())).collect()
}

/// Whether `a` lies on the strict immediate-dominator chain of `b`, within
/// `fuel` steps.
pub open spec fn in_chain(doms: Seq<Option<usize>>, a: int, b: int, fuel: nat) -> bool
    decreases fuel,
{
    fuel > 0 && 0 <= b < doms.len() && match doms[b] {
        Some(d) => d == a || in_chain(doms, a, d as int, (fuel - 1) as nat),
        None => false,
    }
}

/// A structurally sound immediate-dominator relation: the root has no
/// dominator, every entry is a valid index, and every dominated node's chain
/// reaches the root within `doms.len()` steps.
pub open spec fn doms_wf(doms: Seq<Option<usize>>, root: int) -> bool {
    &&& 0 <= root < doms.len()
    &&& doms[root] is None
    &&& forall|i: int| 0 <= i < doms.len() && #[trigger] doms[i] is Some ==> doms[i]->0 < doms.len()
    &&& forall|i: int|
        0 <= i < doms.len() && #[trigger] doms[i] is Some ==> in_chain(doms, root, i, doms.len())
}

/// Walk the strict dominator chain of `b`, answering whether `a` appears on
/// it within `doms.len()` steps.
pub fn chain_member(doms: &Vec<Option<usize>>, a: usize, b: usize) -> (r: bool)
    requires
        b < doms@.len(),
        forall|i: int|
            0 <= i < doms@.len() && #[trigger] doms@[i] is Some ==> doms@[i]->0 < doms@.len(),
    ensures
        r == in_chain(doms@, a as int, b as int, doms@.len() as nat),
{
    let n = doms.len();
    let mut cur = b;
    let mut fuel = n;
    loop
        invariant
            cur < n,
            fuel <= n,
            n == doms@.len(),
            forall|i: int|
                0 <= i < doms@.len() && #[trigger] doms@[i] is Some ==> doms@[i]->0 < doms@.len(),
            in_chain(doms@, a as int, b as int, n as nat) == in_chain(
                doms@,
                a as int,
                cur as int,
                fuel as nat,
            ),
        decreases fuel,
    {
        if fuel == 0 {
            return false;
        }
        match doms[cur] {
            None => {
                return false;
            }
            Some(d) => {
                if d == a {
                    return true;
                }
                cur = d;
                fuel = fuel - 1;
            }
        }
    }
}

/// Check that an immediate-dominator relation is structurally sound; the
/// analyses are defined only over relations that pass this check.
pub fn check_idoms(doms: &Vec<Option<usize>>, root: usize) -> (r: bool)
    ensures
        r == doms_wf(doms@, root as int),
{
    let n = doms.len();
    if root >= n {
        return false;
    }
    if doms[root].is_some() {
        return false;
    }
    let mut i: usize = 0;
    while i < n
        invariant
            i <= n,
            n == doms@.len(),
            forall|j: int| 0 <= j < i && #[trigger] doms@[j] is Some ==> doms@[j]->0 < n,
        decreases n - i,
    {
        match doms[i] {
            Some(d) => {
                if d >= n {
                    return false;
                }
            }
            None => {}
        }
        i = i + 1;
    }
    let mut i: usize = 0;
    while i < n
        invariant
            i <= n,
            root < n,
            n == doms@.len(),
            doms@[root as int] is None,
            forall|j: int| 0 <= j < n && #[trigger] doms@[j] is Some ==> doms@[j]->0 < n,
            forall|j: int|
                0 <= j < i && #[trigger] doms@[j] is Some ==> in_chain(
                    doms@,
                    root as int,
                    j,
                    doms@.len() as nat,
                ),
        decreases n - i,
    {
        if doms[i].is_some() {
            if !chain_member(doms, root, i) {
                return false;
            }
        }
        i = i + 1;
    }
    true
}

/// The dominator tree that an immediate-dominator relation induces: `v` is a
/// strict descendant of `a` exactly when `a` lies on `v`'s dominator chain.
/// Subtree queries walk the chains of the stored relation.
#[derive(Debug)]
pub struct DominatorTree {
    pub doms: Vec<Option<usize>>,
    pub root: usize,
}

impl DominatorTree {
    pub open spec fn wf(&self) -> bool {
        doms_wf(self.doms@, self.root as int)
    }

    /// Build the tree from a precomputed immediate-dominator relation; fails
    /// exactly on a structurally unsound relation.
    pub fn from_dominators(doms: &Vec<Option<usize>>, root: usize) -> (r: Option<DominatorTree>)
        ensures
            r is Some <==> doms_wf(doms@, root as int),
            r matches Some(t) ==> t.doms@ == doms@ && t.root == root && t.wf(),
    {
        if check_idoms(doms, root) {
            let mut copy: Vec<Option<usize>> = Vec::new();
            let mut i: usize = 0;
            while i < doms.len()
                invariant
                    i <= doms@.len(),
                    copy@ =~= doms@.subrange(0, i as int),
                decreases doms@.len() - i,
            {
                copy.push(doms[i]);
                proof {
                    assert(copy@ =~= doms@.subrange(0, i + 1 as int));
                }
                i = i + 1;
            }
            proof {
                assert(copy@ =~= doms@);
            }
            Some(DominatorTree { doms: copy, root })
        } else {
            None
        }
    }

    /// Whether `target` stands in the tree: it is the root or its chain
    /// reaches the root.
    pub fn find(&self, target: usize) -> (r: Option<usize>)
        requires
            self.wf(),
        ensures
            r is Some <==> (target == self.root || (target < self.doms@.len() && in_chain(
                self.doms@,
                self.root as int,
                target as int,
                self.doms@.len() as nat,
            ))),
            r matches Some(v) ==> v == target,
    {
        if target == self.root {
            return Some(target);
        }
        if target >= self.doms.len() {
            return None;
        }
        if chain_member(&self.doms, self.root, target) {
            Some(target)
        } else {
            None
        }
    }

    /// Every strict descendant of `v` in the dominator tree: exactly the
    /// nodes whose dominator chain passes through `v`.
    pub fn all_children(&self, v: usize) -> (r: Vec<usize>)
        requires
            self.wf(),
        ensures
            forall|u: usize|
                u < self.doms@.len() ==> (#[trigger] r@.contains(u) <==> u != v && in_chain(
                    self.doms@,
                    v as int,
                    u as int,
                    self.doms@.len() as nat,
                )),
            forall|j: int| 0 <= j < r@.len() ==> #[trigger] r@[j] < self.doms@.len(),
            forall|j: int, k: int| 0 <= j < k < r@.len() ==> r@[j] != r@[k],
    {
        let n = self.doms.len();
        let mut out: Vec<usize> = Vec::new();
        let mut u: usize = 0;
        while u < n
            invariant
                u <= n,
                n == self.doms@.len(),
                self.wf(),
                forall|j: int| 0 <= j < out@.len() ==> #[trigger] out@[j] < u,
                forall|j: int, k: int| 0 <= j < k < out@.len() ==> out@[j] != out@[k],
                forall|w: usize|
                    w < u ==> (#[trigger] out@.contains(w) <==> w != v && in_chain(
                        self.doms@,
                        v as int,
                        w as int,
                        n as nat,
                    )),
            decreases n - u,
        {
            let ghost before = out@;
            if u != v && chain_member(&self.doms, v, u) {
                out.push(u);
                proof {
                    assert(out@ == before.push(u));
                    assert forall|w: usize| w < u + 1 implies (#[trigger] out@.contains(w) <==> w
                        != v && in_chain(self.doms@, v as int, w as int, n as nat)) by {
                        vstd::seq_lib::lemma_seq_contains_after_push(before, u, w);
                        if w < u {
                            assert(before.contains(w) <==> (w != v && in_chain(
                                self.doms@,
                                v as int,
                                w as int,
                                n as nat,
                            )));
                        } else {
                            assert(out@.contains(u));
                        }
                    }
                }
            } else {
                proof {
                    assert forall|w: usize| w < u + 1 implies (#[trigger] out@.contains(w) <==> w
                        != v && in_chain(self.doms@, v as int, w as int, n as nat)) by {
                        if w == u {
                            if out@.contains(u) {
                                let j = choose|j: int| 0 <= j < out@.len() && out@[j] == u;
                                assert(out@[j] < u);
                            }
                        }
                    }
                }
            }
            u = u + 1;
        }
        out
    }
}

} // verus!
