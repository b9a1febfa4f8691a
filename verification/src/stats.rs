//! Structural statistics about a tree, and opt-in per-query counters.
//!
//! [`TreeStats`] describes a tree's current shape and is read on demand.
//! [`QueryStats`] counts traversal work for one query. Both are deterministic,
//! so a replay produces the same numbers; neither carries wall-clock time.
use vstd::prelude::*;

verus! {

/// A read-out of a tree's current shape and size, with a quality metric of
/// type `Q` (a larger value means a looser tree).
#[derive(Clone, Copy, Debug)]
pub struct TreeStats<Q> {
    /// Total nodes, interior plus leaf.
    pub node_count: usize,
    /// Leaf nodes.
    pub leaf_count: usize,
    /// Primitives held across all leaf nodes.
    pub prim_count: usize,
    /// Longest root-to-leaf path, counted in nodes. Zero for an empty tree.
    pub max_depth: usize,
    /// The interior-surface quality metric.
    pub quality: Q,
    /// Approximate heap bytes held by the node and index arrays (saturating).
    pub bytes: usize,
}

/// The heap footprint of `nodes` nodes of `node_size` bytes and `prims`
/// four-byte indices, saturated at `usize::MAX`.
pub open spec fn heap_bytes(nodes: nat, node_size: nat, prims: nat) -> nat {
    if nodes * node_size + prims * 4 > usize::MAX {
        usize::MAX as nat
    } else {
        nodes * node_size + prims * 4
    }
}

/// `count * each`, saturated at `usize::MAX`.
pub fn saturating_product(count: usize, each: usize) -> (r: usize)
    ensures
        r == if count * each > usize::MAX {
            usize::MAX as int
        } else {
            count * each
        },
{
    match count.checked_mul(each) {
        Some(v) => v,
        None => usize::MAX,
    }
}

/// Per-query traversal counters.
#[derive(Clone, Copy, Debug, PartialEq, Eq, Structural)]
pub struct QueryStats {
    /// Nodes popped from the traversal stack and inspected.
    pub nodes_visited: u64,
    /// Query versus node-bounds tests performed.
    pub aabb_tests: u64,
    /// Provider narrow tests invoked.
    pub narrow_tests: u64,
    /// Hits produced by narrow tests, before nearest selection or sorting.
    pub hits: u64,
}

impl QueryStats {
    /// A fresh zeroed counter.
    pub fn new() -> (s: Self)
        ensures
            s.nodes_visited == 0,
            s.aabb_tests == 0,
            s.narrow_tests == 0,
            s.hits == 0,
    {
        QueryStats { nodes_visited: 0, aabb_tests: 0, narrow_tests: 0, hits: 0 }
    }

    /// Count one node visit.
    pub fn node(&mut self)
        requires
            old(self).nodes_visited < u64::MAX,
        ensures
            *final(self) == (QueryStats { nodes_visited: (old(self).nodes_visited + 1) as u64, ..*old(self) }),
    {
        self.nodes_visited = self.nodes_visited + 1;
    }

    /// Count one node-bounds test.
    pub fn aabb(&mut self)
        requires
            old(self).aabb_tests < u64::MAX,
        ensures
            *final(self) == (QueryStats { aabb_tests: (old(self).aabb_tests + 1) as u64, ..*old(self) }),
    {
        self.aabb_tests = self.aabb_tests + 1;
    }

    /// Count one narrow test.
    pub fn narrow(&mut self)
        requires
            old(self).narrow_tests < u64::MAX,
        ensures
            *final(self) == (QueryStats { narrow_tests: (old(self).narrow_tests + 1) as u64, ..*old(self) }),
    {
        self.narrow_tests = self.narrow_tests + 1;
    }

    /// Count one hit.
    pub fn hit(&mut self)
        requires
            old(self).hits < u64::MAX,
        ensures
            *final(self) == (QueryStats { hits: (old(self).hits + 1) as u64, ..*old(self) }),
    {
        self.hits = self.hits + 1;
    }
}

} // verus!
