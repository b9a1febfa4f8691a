//! Single-level bounding-volume hierarchy over a provider's leaves.
//!
//! Built over the leaves' bounds. Traversal prunes whole subtrees by the
//! caller's node test and, for nearest queries, by the current best time of
//! impact. The tree stores only bounds and leaf indices; exact geometry lives
//! with the caller. When leaves move but stay the same in number,
//! [`Bvh::refit`] updates the bounds in place instead of rebuilding.
use crate::hit::{Hit, Overlap};
use crate::probe::{
    accepts_ok, is_all_hits, is_all_overlaps, is_nearest, leaf_test_ok, node_test_ok,
    overlap_test_ok, prunes_soundly, region_prunes_soundly, region_test_ok,
};
use crate::stats::{heap_bytes, QueryStats, TreeStats};
use crate::traverse::{narrows, visits};
use crate::tree::{
    depth, keys_ok, leaf_nodes_in, same_shape, split_ok, split_tree, union_ok, Node, Tree,
};
use vstd::prelude::*;

verus! {

/// A single-level BVH over a provider's leaves.
pub struct Bvh<B> {
    tree: Tree<B>,
}

impl<B: Copy> Bvh<B> {
    /// The underlying tree.
    pub closed spec fn tree_view(&self) -> Tree<B> {
        self.tree
    }

    /// The tree invariant.
    pub open spec fn wf(&self) -> bool {
        self.tree_view().wf()
    }

    /// The number of leaves the tree was built over.
    pub open spec fn leaf_total(&self) -> nat {
        self.tree_view().index_seq().len()
    }

    /// Builds a BVH over `bounds.len()` leaves (see [`Tree::build`]).
    pub fn build<S: Fn(&Vec<u32>, usize, usize) -> Option<usize>, U: Fn(B, B) -> B>(
        bounds: &Vec<B>,
        keys: &Vec<Vec<u32>>,
        split: &S,
        empty: B,
        union: &U,
    ) -> (b: Self)
        requires
            bounds@.len() <= u32::MAX,
            keys_ok(keys@, bounds@.len()),
            split_ok(*split, keys@.len()),
            union_ok(*union),
        ensures
            b.wf(),
            b.leaf_total() == bounds@.len(),
            bounds@.len() >= 2 ==> b.tree_view().node_seq().len() < bounds@.len(),
            forall|k: int|
                0 <= k < b.tree_view().node_seq().len() && (#[trigger] b.tree_view().node_seq()[k]).prim_count
                    > 0 ==> b.tree_view().node_seq()[k].child_b == 0,
            b.tree_view().fitted(*union, bounds@, empty),
            split_tree(b.tree_view().node_seq(), b.tree_view().index_seq(), keys@, *split),
    {
        Bvh { tree: Tree::build(bounds, keys, split, empty, union) }
    }

    /// Updates the tree bounds from the current leaf bounds, keeping the
    /// topology. Much cheaper than a rebuild for leaves that moved but did not
    /// change in number or identity.
    pub fn refit<U: Fn(B, B) -> B>(&mut self, bounds: &Vec<B>, empty: B, union: &U)
        requires
            old(self).wf(),
            old(self).leaf_total() <= bounds@.len(),
            union_ok(*union),
        ensures
            final(self).wf(),
            same_shape(old(self).tree_view().node_seq(), final(self).tree_view().node_seq()),
            final(self).tree_view().index_seq() == old(self).tree_view().index_seq(),
            final(self).tree_view().fitted(*union, bounds@, empty),
    {
        self.tree.refit_bounds(bounds, empty, union);
    }

    /// Nearest hit within `max_toi` (see [`Tree::raycast_nearest`]).
    pub fn raycast_nearest<
        P,
        NT: Fn(B, u32) -> bool,
        AC: Fn(usize) -> bool,
        LT: Fn(usize, u32) -> Option<(u32, P)>,
    >(&self, max_toi: u32, node_test: &NT, accepts: &AC, leaf_test: &LT) -> (r: Option<Hit<P>>)
        requires
            self.wf(),
            node_test_ok(*node_test),
            accepts_ok(*accepts),
            leaf_test_ok(*leaf_test),
            prunes_soundly(
                self.tree_view().node_seq(),
                self.tree_view().index_seq(),
                *node_test,
                *leaf_test,
            ),
        ensures
            is_nearest(*accepts, *leaf_test, self.leaf_total(), max_toi, r),
    {
        self.tree.raycast_nearest(max_toi, node_test, accepts, leaf_test)
    }

    /// All hits within `max_toi`, sorted nearest first, then by leaf.
    pub fn raycast_all<
        P,
        NT: Fn(B, u32) -> bool,
        AC: Fn(usize) -> bool,
        LT: Fn(usize, u32) -> Option<(u32, P)>,
    >(&self, max_toi: u32, node_test: &NT, accepts: &AC, leaf_test: &LT) -> (r: Vec<Hit<P>>)
        requires
            self.wf(),
            node_test_ok(*node_test),
            accepts_ok(*accepts),
            leaf_test_ok(*leaf_test),
            prunes_soundly(
                self.tree_view().node_seq(),
                self.tree_view().index_seq(),
                *node_test,
                *leaf_test,
            ),
        ensures
            is_all_hits(*accepts, *leaf_test, self.leaf_total(), max_toi, r@),
    {
        self.tree.raycast_all(max_toi, node_test, accepts, leaf_test)
    }

    /// Nearest hit within `max_toi`, counting the traversal work into `stats`
    /// (see [`Tree::raycast_nearest_stats`]).
    pub fn raycast_nearest_stats<
        P,
        NT: Fn(B, u32) -> bool,
        AC: Fn(usize) -> bool,
        LT: Fn(usize, u32) -> Option<(u32, P)>,
    >(&self, max_toi: u32, node_test: &NT, accepts: &AC, leaf_test: &LT, stats: &mut QueryStats) -> (r:
        Option<Hit<P>>)
        requires
            self.wf(),
            node_test_ok(*node_test),
            accepts_ok(*accepts),
            leaf_test_ok(*leaf_test),
            prunes_soundly(
                self.tree_view().node_seq(),
                self.tree_view().index_seq(),
                *node_test,
                *leaf_test,
            ),
            old(stats).nodes_visited + self.tree_view().node_seq().len() <= u64::MAX,
            old(stats).aabb_tests + self.tree_view().node_seq().len() <= u64::MAX,
            old(stats).narrow_tests + self.leaf_total() <= u64::MAX,
            old(stats).hits + self.leaf_total() <= u64::MAX,
        ensures
            is_nearest(*accepts, *leaf_test, self.leaf_total(), max_toi, r),
            final(stats).nodes_visited + old(stats).aabb_tests == final(stats).aabb_tests + old(
                stats,
            ).nodes_visited,
            old(stats).nodes_visited <= final(stats).nodes_visited <= old(stats).nodes_visited
                + self.tree_view().node_seq().len(),
            self.tree_view().node_seq().len() > 0
                ==> old(stats).nodes_visited < final(stats).nodes_visited,
            old(stats).narrow_tests <= final(stats).narrow_tests <= old(stats).narrow_tests
                + self.leaf_total(),
            old(stats).hits <= final(stats).hits,
            final(stats).hits + old(stats).narrow_tests <= final(stats).narrow_tests + old(stats).hits,
            (r is Some) == (final(stats).hits > old(stats).hits),
            final(stats).nodes_visited == old(stats).nodes_visited + self.tree_view().nearest_counts(
                *node_test,
                *accepts,
                *leaf_test,
                max_toi,
            ).0,
            final(stats).aabb_tests == old(stats).aabb_tests + self.tree_view().nearest_counts(
                *node_test,
                *accepts,
                *leaf_test,
                max_toi,
            ).0,
            final(stats).narrow_tests == old(stats).narrow_tests + self.tree_view().nearest_counts(
                *node_test,
                *accepts,
                *leaf_test,
                max_toi,
            ).1,
            final(stats).hits == old(stats).hits + self.tree_view().nearest_counts(
                *node_test,
                *accepts,
                *leaf_test,
                max_toi,
            ).2,
    {
        self.tree.raycast_nearest_stats(max_toi, node_test, accepts, leaf_test, stats)
    }

    /// All hits within `max_toi`, counting the traversal work into `stats`
    /// (see [`Tree::raycast_all_stats`]).
    pub fn raycast_all_stats<
        P,
        NT: Fn(B, u32) -> bool,
        AC: Fn(usize) -> bool,
        LT: Fn(usize, u32) -> Option<(u32, P)>,
    >(&self, max_toi: u32, node_test: &NT, accepts: &AC, leaf_test: &LT, stats: &mut QueryStats) -> (r: Vec<
        Hit<P>,
    >)
        requires
            self.wf(),
            node_test_ok(*node_test),
            accepts_ok(*accepts),
            leaf_test_ok(*leaf_test),
            prunes_soundly(
                self.tree_view().node_seq(),
                self.tree_view().index_seq(),
                *node_test,
                *leaf_test,
            ),
            old(stats).nodes_visited + self.tree_view().node_seq().len() <= u64::MAX,
            old(stats).aabb_tests + self.tree_view().node_seq().len() <= u64::MAX,
            old(stats).narrow_tests + self.leaf_total() <= u64::MAX,
            old(stats).hits + self.leaf_total() <= u64::MAX,
        ensures
            is_all_hits(*accepts, *leaf_test, self.leaf_total(), max_toi, r@),
            final(stats).nodes_visited == old(stats).nodes_visited + visits(
                self.tree_view().node_seq(),
                *node_test,
                max_toi,
                0,
            ),
            final(stats).aabb_tests == old(stats).aabb_tests + visits(
                self.tree_view().node_seq(),
                *node_test,
                max_toi,
                0,
            ),
            final(stats).narrow_tests == old(stats).narrow_tests + narrows(
                self.tree_view().node_seq(),
                self.tree_view().index_seq(),
                *node_test,
                *accepts,
                max_toi,
                0,
            ),
            final(stats).hits == old(stats).hits + r@.len(),
    {
        self.tree.raycast_all_stats(max_toi, node_test, accepts, leaf_test, stats)
    }

    /// Nearest shape-cast contact within `max_toi`. `node_test` is the swept
    /// probe's broad phase against node bounds; `leaf_test` is the provider's
    /// swept test on a leaf.
    pub fn shapecast_nearest<
        P,
        NT: Fn(B, u32) -> bool,
        AC: Fn(usize) -> bool,
        LT: Fn(usize, u32) -> Option<(u32, P)>,
    >(&self, max_toi: u32, node_test: &NT, accepts: &AC, leaf_test: &LT) -> (r: Option<Hit<P>>)
        requires
            self.wf(),
            node_test_ok(*node_test),
            accepts_ok(*accepts),
            leaf_test_ok(*leaf_test),
            prunes_soundly(
                self.tree_view().node_seq(),
                self.tree_view().index_seq(),
                *node_test,
                *leaf_test,
            ),
        ensures
            is_nearest(*accepts, *leaf_test, self.leaf_total(), max_toi, r),
    {
        self.tree.raycast_nearest(max_toi, node_test, accepts, leaf_test)
    }

    /// All shape-cast contacts within `max_toi`, sorted nearest first (then by
    /// leaf).
    pub fn shapecast_all<
        P,
        NT: Fn(B, u32) -> bool,
        AC: Fn(usize) -> bool,
        LT: Fn(usize, u32) -> Option<(u32, P)>,
    >(&self, max_toi: u32, node_test: &NT, accepts: &AC, leaf_test: &LT) -> (r: Vec<Hit<P>>)
        requires
            self.wf(),
            node_test_ok(*node_test),
            accepts_ok(*accepts),
            leaf_test_ok(*leaf_test),
            prunes_soundly(
                self.tree_view().node_seq(),
                self.tree_view().index_seq(),
                *node_test,
                *leaf_test,
            ),
        ensures
            is_all_hits(*accepts, *leaf_test, self.leaf_total(), max_toi, r@),
    {
        self.tree.raycast_all(max_toi, node_test, accepts, leaf_test)
    }

    /// Every leaf whose exact geometry meets the query region, in ascending
    /// leaf order. A leaf reaches `overlap_test` only once `region_test`
    /// accepts its own bounds, `leaf_bounds[leaf]`, so a test that always
    /// answers yes reports the leaves whose bounds meet the region.
    pub fn overlap<Id, RT: Fn(B) -> bool, AC: Fn(usize) -> bool, OT: Fn(usize) -> Option<Id>>(
        &self,
        region_test: &RT,
        leaf_bounds: &Vec<B>,
        accepts: &AC,
        overlap_test: &OT,
    ) -> (r: Vec<Overlap<Id>>)
        requires
            self.wf(),
            leaf_bounds@.len() >= self.leaf_total(),
            region_test_ok(*region_test),
            accepts_ok(*accepts),
            overlap_test_ok(*overlap_test),
            region_prunes_soundly(
                self.tree_view().node_seq(),
                self.tree_view().index_seq(),
                *region_test,
                leaf_bounds@,
            ),
        ensures
            is_all_overlaps(
                *accepts,
                *region_test,
                leaf_bounds@,
                *overlap_test,
                self.leaf_total(),
                r@,
            ),
    {
        self.tree.overlap(region_test, leaf_bounds, accepts, overlap_test)
    }

    /// The number of nodes in the tree.
    pub fn node_count(&self) -> (r: usize)
        ensures
            r == self.tree_view().node_seq().len(),
    {
        self.tree.node_count()
    }

    /// A read-out of the tree's shape, carrying the caller's quality metric.
    pub fn stats<Q>(&self, quality: Q) -> (st: TreeStats<Q>)
        requires
            self.wf(),
        ensures
            st.node_count == self.tree_view().node_seq().len(),
            st.leaf_count == leaf_nodes_in(
                self.tree_view().node_seq(),
                0,
                self.tree_view().node_seq().len() as int,
            ),
            st.prim_count == self.leaf_total(),
            st.max_depth == depth(self.tree_view().node_seq(), 0),
            st.quality == quality,
            st.bytes == heap_bytes(
                self.tree_view().node_seq().len(),
                vstd::layout::size_of::<Node<B>>(),
                self.leaf_total(),
            ),
    {
        self.tree.stats(quality)
    }

    /// The underlying tree (nodes and leaf order), for packing or statistics.
    pub fn tree(&self) -> (r: &Tree<B>)
        ensures
            *r == self.tree_view(),
    {
        &self.tree
    }
}

} // verus!
