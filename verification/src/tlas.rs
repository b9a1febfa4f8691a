//! Two-level tree over transformed instances.
//!
//! The top level is a BVH over instance world bounds. Each instance carries a
//! rigid transform and its own local geometry; the caller's leaf tests move a
//! query into an instance's local space. When instances move,
//! [`Tlas::refit`] recomputes their world bounds and updates the tree in place,
//! in time linear in the instance count. The quality metric recorded at build
//! time lets the caller judge when a rebuild would pay off.
use crate::hit::{Hit, Overlap};
use crate::probe::{
    accepts_ok, is_all_hits, is_all_overlaps, is_nearest, leaf_test_ok, node_test_ok,
    overlap_test_ok, prunes_soundly, region_prunes_soundly, region_test_ok,
};
use crate::stats::{heap_bytes, TreeStats};
use crate::tree::{
    depth, keys_ok, leaf_nodes_in, same_shape, split_ok, split_tree, union_ok, Node, Tree,
};
use vstd::prelude::*;

verus! {

/// A top-level acceleration structure over a set of transformed instances,
/// with bounds of type `B` and a quality metric of type `Q`.
pub struct Tlas<B, Q> {
    tree: Tree<B>,
    world_aabbs: Vec<B>,
    baseline: Q,
}

impl<B: Copy, Q: Copy> Tlas<B, Q> {
    /// The underlying tree.
    pub closed spec fn tree_view(&self) -> Tree<B> {
        self.tree
    }

    /// The world bounds per instance, indexed by instance id.
    pub closed spec fn world_seq(&self) -> Seq<B> {
        self.world_aabbs@
    }

    /// The quality metric recorded right after the last build.
    pub closed spec fn baseline_view(&self) -> Q {
        self.baseline
    }

    /// The invariant: a well-formed tree over exactly the instances whose world
    /// bounds are held.
    pub open spec fn wf(&self) -> bool {
        &&& self.tree_view().wf()
        &&& self.tree_view().index_seq().len() == self.world_seq().len()
    }

    /// The number of instances.
    pub open spec fn instance_total(&self) -> nat {
        self.world_seq().len()
    }

    /// Builds the tree over instances with the given world bounds (see
    /// [`Tree::build`]) and records `quality` of the built tree as the baseline.
    pub fn build<
        S: Fn(&Vec<u32>, usize, usize) -> Option<usize>,
        U: Fn(B, B) -> B,
        QF: Fn(&Tree<B>) -> Q,
    >(
        world_aabbs: Vec<B>,
        keys: &Vec<Vec<u32>>,
        split: &S,
        empty: B,
        union: &U,
        quality: &QF,
    ) -> (t: Self)
        requires
            world_aabbs@.len() <= u32::MAX,
            keys_ok(keys@, world_aabbs@.len()),
            split_ok(*split, keys@.len()),
            union_ok(*union),
            forall|tr: &Tree<B>| #[trigger] quality.requires((tr,)),
        ensures
            t.wf(),
            t.world_seq() == world_aabbs@,
            world_aabbs@.len() >= 2 ==> t.tree_view().node_seq().len() < world_aabbs@.len(),
            forall|k: int|
                0 <= k < t.tree_view().node_seq().len() && (#[trigger] t.tree_view().node_seq()[k]).prim_count
                    > 0 ==> t.tree_view().node_seq()[k].child_b == 0,
            t.tree_view().fitted(*union, world_aabbs@, empty),
            split_tree(t.tree_view().node_seq(), t.tree_view().index_seq(), keys@, *split),
            quality.ensures((&t.tree_view(),), t.baseline_view()),
    {
        let tree = Tree::build(&world_aabbs, keys, split, empty, union);
        let baseline = quality(&tree);
        Tlas { tree, world_aabbs, baseline }
    }

    /// Recomputes every instance's world bounds with `world_of(i)` and updates
    /// the tree bounds in place, keeping the topology and the baseline.
    pub fn refit<W: Fn(usize) -> B, U: Fn(B, B) -> B>(&mut self, world_of: &W, empty: B, union: &U)
        requires
            old(self).wf(),
            forall|i: usize| #[trigger] world_of.requires((i,)),
            union_ok(*union),
        ensures
            final(self).wf(),
            final(self).instance_total() == old(self).instance_total(),
            forall|i: int|
                0 <= i < final(self).instance_total() ==> world_of.ensures(
                    (i as usize,),
                    #[trigger] final(self).world_seq()[i],
                ),
            same_shape(old(self).tree_view().node_seq(), final(self).tree_view().node_seq()),
            final(self).tree_view().index_seq() == old(self).tree_view().index_seq(),
            final(self).tree_view().fitted(*union, final(self).world_seq(), empty),
            final(self).baseline_view() == old(self).baseline_view(),
    {
        let n = self.world_aabbs.len();
        let ghost t0 = self.tree;
        let ghost q0 = self.baseline;
        let mut i: usize = 0;
        while i < n
            invariant
                0 <= i <= n,
                self.tree == t0,
                self.baseline == q0,
                t0.wf(),
                t0.index_seq().len() == n,
                n == self.world_aabbs@.len(),
                forall|j: usize| #[trigger] world_of.requires((j,)),
                forall|j: int| 0 <= j < i ==> world_of.ensures((j as usize,), #[trigger] self.world_aabbs@[j]),
            decreases n - i,
        {
            let b = world_of(i);
            self.world_aabbs[i] = b;
            i = i + 1;
        }
        self.tree.refit_bounds(&self.world_aabbs, empty, union);
    }

    /// The quality metric recorded right after the last build.
    pub fn baseline(&self) -> (r: Q)
        ensures
            r == self.baseline_view(),
    {
        self.baseline
    }

    /// The number of nodes in the top-level tree.
    pub fn node_count(&self) -> (r: usize)
        ensures
            r == self.tree_view().node_seq().len(),
    {
        self.tree.node_count()
    }

    /// A read-out of the top-level tree's shape, carrying the caller's
    /// current quality metric.
    pub fn stats<QN>(&self, quality: QN) -> (st: TreeStats<QN>)
        requires
            self.wf(),
        ensures
            st.node_count == self.tree_view().node_seq().len(),
            st.leaf_count == leaf_nodes_in(
                self.tree_view().node_seq(),
                0,
                self.tree_view().node_seq().len() as int,
            ),
            st.prim_count == self.instance_total(),
            st.max_depth == depth(self.tree_view().node_seq(), 0),
            st.quality == quality,
            st.bytes == heap_bytes(
                self.tree_view().node_seq().len(),
                vstd::layout::size_of::<Node<B>>(),
                self.instance_total(),
            ),
    {
        self.tree.stats(quality)
    }

    /// The underlying tree.
    pub fn tree(&self) -> (r: &Tree<B>)
        ensures
            *r == self.tree_view(),
    {
        &self.tree
    }

    /// The world bounds per instance.
    pub fn world_aabbs(&self) -> (r: &Vec<B>)
        ensures
            r@ == self.world_seq(),
    {
        &self.world_aabbs
    }

    /// Nearest hit along a world-space ray within `max_toi`. `node_test` is the
    /// ray against node bounds; `leaf_test` moves the ray into the instance's
    /// local space and tests it there.
    pub fn raycast_nearest<
        P,
        NT: Fn(B, u32) -> bool,
        AC: Fn(usize) -> bool,
        LT: Fn(usize, u32) -> Option<(u32, P)>,
    >(&self, max_toi: u32, node_test: &NT, accepts: &AC, leaf_test: &LT) -> (r: Option<Hit<P>>)
        requires
            self.wf(),
            node_test_ok(*node_test),
            accepts_ok(*accepts),
            leaf_test_ok(*leaf_test),
            prunes_soundly(
                self.tree_view().node_seq(),
                self.tree_view().index_seq(),
                *node_test,
                *leaf_test,
            ),
        ensures
            is_nearest(*accepts, *leaf_test, self.instance_total(), max_toi, r),
    {
        self.tree.raycast_nearest(max_toi, node_test, accepts, leaf_test)
    }

    /// All hits along a world-space ray within `max_toi`, sorted nearest first
    /// (then by instance index).
    pub fn raycast_all<
        P,
        NT: Fn(B, u32) -> bool,
        AC: Fn(usize) -> bool,
        LT: Fn(usize, u32) -> Option<(u32, P)>,
    >(&self, max_toi: u32, node_test: &NT, accepts: &AC, leaf_test: &LT) -> (r: Vec<Hit<P>>)
        requires
            self.wf(),
            node_test_ok(*node_test),
            accepts_ok(*accepts),
            leaf_test_ok(*leaf_test),
            prunes_soundly(
                self.tree_view().node_seq(),
                self.tree_view().index_seq(),
                *node_test,
                *leaf_test,
            ),
        ensures
            is_all_hits(*accepts, *leaf_test, self.instance_total(), max_toi, r@),
    {
        self.tree.raycast_all(max_toi, node_test, accepts, leaf_test)
    }

    /// Nearest shape-cast contact within `max_toi`. `node_test` is the swept
    /// probe's broad phase against node bounds; `leaf_test` is the provider's
    /// swept test on an instance.
    pub fn shapecast_nearest<
        P,
        NT: Fn(B, u32) -> bool,
        AC: Fn(usize) -> bool,
        LT: Fn(usize, u32) -> Option<(u32, P)>,
    >(&self, max_toi: u32, node_test: &NT, accepts: &AC, leaf_test: &LT) -> (r: Option<Hit<P>>)
        requires
            self.wf(),
            node_test_ok(*node_test),
            accepts_ok(*accepts),
            leaf_test_ok(*leaf_test),
            prunes_soundly(
                self.tree_view().node_seq(),
                self.tree_view().index_seq(),
                *node_test,
                *leaf_test,
            ),
        ensures
            is_nearest(*accepts, *leaf_test, self.instance_total(), max_toi, r),
    {
        self.tree.raycast_nearest(max_toi, node_test, accepts, leaf_test)
    }

    /// All shape-cast contacts within `max_toi`, sorted nearest first (then by
    /// instance index).
    pub fn shapecast_all<
        P,
        NT: Fn(B, u32) -> bool,
        AC: Fn(usize) -> bool,
        LT: Fn(usize, u32) -> Option<(u32, P)>,
    >(&self, max_toi: u32, node_test: &NT, accepts: &AC, leaf_test: &LT) -> (r: Vec<Hit<P>>)
        requires
            self.wf(),
            node_test_ok(*node_test),
            accepts_ok(*accepts),
            leaf_test_ok(*leaf_test),
            prunes_soundly(
                self.tree_view().node_seq(),
                self.tree_view().index_seq(),
                *node_test,
                *leaf_test,
            ),
        ensures
            is_all_hits(*accepts, *leaf_test, self.instance_total(), max_toi, r@),
    {
        self.tree.raycast_all(max_toi, node_test, accepts, leaf_test)
    }

    /// Every instance whose exact geometry meets the query region, in
    /// ascending instance order. An instance reaches `overlap_test` only once
    /// `region_test` accepts its own world bounds, so a test that always
    /// answers yes reports the instances whose world bounds meet the region.
    pub fn overlap<Id, RT: Fn(B) -> bool, AC: Fn(usize) -> bool, OT: Fn(usize) -> Option<Id>>(
        &self,
        region_test: &RT,
        accepts: &AC,
        overlap_test: &OT,
    ) -> (r: Vec<Overlap<Id>>)
        requires
            self.wf(),
            region_test_ok(*region_test),
            accepts_ok(*accepts),
            overlap_test_ok(*overlap_test),
            region_prunes_soundly(
                self.tree_view().node_seq(),
                self.tree_view().index_seq(),
                *region_test,
                self.world_seq(),
            ),
        ensures
            is_all_overlaps(
                *accepts,
                *region_test,
                self.world_seq(),
                *overlap_test,
                self.instance_total(),
                r@,
            ),
    {
        self.tree.overlap(region_test, &self.world_aabbs, accepts, overlap_test)
    }
}

} // verus!
