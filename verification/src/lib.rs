//! Recovery of structured, goto-free control flow from an arbitrary
//! directed control-flow graph: the boolean condition algebra that guards
//! recovered branches, the dominance and loop analyses kept beside a
//! mutable graph, and the engine that repeatedly collapses reducible
//! regions until a single structured node remains.

pub mod ast;
pub mod cond;
pub mod cond_laws;
pub mod cond_sem;
pub mod doms;
pub mod engine;
pub mod fixture;
pub mod graph;

use vstd::prelude::*;

verus! {

/// An opaque, totally ordered identifier for a program point. A reserved
/// sentinel value denotes "no label", used for synthetic nodes.
#[derive(Clone, Copy, Debug, PartialEq, Eq, PartialOrd, Ord, Structural)]
pub struct Label(pub u64);

impl Label {
    /// The sentinel "no label" value.
    pub fn dummy() -> (r: Self)
        ensures
            r.0 == u64::MAX,
    {
        Label(u64::MAX)
    }
}

} // verus!
