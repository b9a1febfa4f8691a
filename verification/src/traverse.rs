//! Explicit-stack traversal of a tree: nearest hit, all hits, and overlap.
//!
//! The walk prunes whole subtrees by the caller's node test and, for nearest
//! queries, by the current best time of impact. Exact geometry lives with the
//! caller, behind the leaf test.
use crate::hit::{hit_before, hit_le, sort_hits, sort_overlaps, Hit, Overlap};
use crate::order::spec_key32;
use crate::probe::{
    accepts_ok, is_all_hits, is_all_overlaps, is_nearest, leaf_hit, leaf_test_ok, node_test_ok,
    overlap_candidate, overlap_test_ok, prunes_soundly, ray_candidate, region_prunes_soundly,
    region_test_ok,
};
use crate::stats::QueryStats;
use crate::tree::{
    covers, ident, lemma_covers_in_range, lemma_perm_facts, links_ok, node_ok, prims_below,
    range_set, size, tree_wf, Node, Tree,
};
use vstd::prelude::*;

verus! {

broadcast use vstd::seq_lib::group_to_multiset_ensures;

/// The positions covered by the subtrees whose roots are on the stack `s`.
pub open spec fn pending<B>(nodes: Seq<Node<B>>, s: Seq<u32>) -> Set<int>
    decreases s.len(),
{
    if s.len() == 0 {
        Set::empty()
    } else {
        pending(nodes, s.drop_last()).union(covers(nodes, s.last() as int))
    }
}

/// The number of nodes still to visit below the stack `s`.
pub open spec fn weight<B>(nodes: Seq<Node<B>>, s: Seq<u32>) -> nat
    decreases s.len(),
{
    if s.len() == 0 {
        0
    } else {
        weight(nodes, s.drop_last()) + size(nodes, s.last() as int)
    }
}

/// Every candidate hit on the leaf at position `q` is no earlier than `best`.
pub open spec fn handled<P, AC: Fn(usize) -> bool, LT: Fn(usize, u32) -> Option<(u32, P)>>(
    ac: AC,
    lt: LT,
    n: nat,
    max_toi: u32,
    indices: Seq<u32>,
    best: Option<Hit<P>>,
    q: int,
) -> bool {
    forall|h: Hit<P>|
        #[trigger] ray_candidate(ac, lt, n, max_toi, h) && h.leaf == indices[q] ==> (best matches Some(
            b,
        ) && !hit_before(h, b))
}

/// A candidate hit has a position in a permutation index array.
proof fn lemma_candidate_position<P, AC: Fn(usize) -> bool, LT: Fn(usize, u32) -> Option<(u32, P)>>(
    ac: AC,
    lt: LT,
    max_toi: u32,
    indices: Seq<u32>,
    h: Hit<P>,
) -> (q: int)
    requires
        indices.len() <= u32::MAX,
        indices.to_multiset() == ident(indices.len()).to_multiset(),
        ray_candidate(ac, lt, indices.len(), max_toi, h),
    ensures
        0 <= q < indices.len(),
        indices[q] == h.leaf,
{
    lemma_perm_facts(indices);
    let v = h.leaf as u32;
    assert(indices.contains(v));
    choose|q: int| 0 <= q < indices.len() && indices[q] == v
}

/// Positions covered by a stack are disjoint from a set disjoint from each
/// stacked subtree.
proof fn lemma_pending_disjoint<B>(nodes: Seq<Node<B>>, s: Seq<u32>, x: Set<int>)
    requires
        forall|k: int| 0 <= k < s.len() ==> x.disjoint(covers(nodes, #[trigger] s[k] as int)),
    ensures
        x.disjoint(pending(nodes, s)),
    decreases s.len(),
{
    if s.len() > 0 {
        assert forall|k: int| 0 <= k < s.drop_last().len() implies x.disjoint(
            covers(nodes, #[trigger] s.drop_last()[k] as int),
        ) by {
            assert(s.drop_last()[k] == s[k]);
        }
        lemma_pending_disjoint(nodes, s.drop_last(), x);
        assert(x.disjoint(covers(nodes, s[s.len() - 1] as int)));
    }
}

/// Two sequences with equal multisets: if one has no duplicates, neither
/// does the other.
proof fn lemma_no_dup_perm<A>(a: Seq<A>, b: Seq<A>)
    requires
        a.to_multiset() == b.to_multiset(),
        a.no_duplicates(),
    ensures
        b.no_duplicates(),
{
    a.lemma_multiset_has_no_duplicates();
    b.lemma_multiset_has_no_duplicates_conv();
}

/// The leaf has a position in the index array that lies in the done set (not
/// pending and not in `lo..hi`).
pub open spec fn seen(indices: Seq<u32>, pend: Set<int>, lo: int, hi: int, leaf: usize) -> bool {
    exists|q: int|
        0 <= q < indices.len() && #[trigger] indices[q] == leaf && !pend.contains(q) && !(lo <= q < hi)
}

/// The nodes an all-hits walk with limit `lim` visits in the subtree at `i`:
/// the node itself, and its children only when its bounds pass the node test.
pub open spec fn visits<B, NT: Fn(B, u32) -> bool>(nodes: Seq<Node<B>>, nt: NT, lim: u32, i: int) -> nat
    decreases nodes.len() - i,
{
    if 0 <= i < nodes.len() {
        let nd = nodes[i];
        if nd.prim_count == 0 && links_ok(nodes, i) && nt.ensures((nd.bounds, lim), true) {
            1 + visits(nodes, nt, lim, nd.child_a as int) + visits(nodes, nt, lim, nd.child_b as int)
        } else {
            1
        }
    } else {
        0
    }
}

/// The positions among `lo..hi` of the index array whose leaf is accepted.
pub open spec fn accepted_in<AC: Fn(usize) -> bool>(indices: Seq<u32>, ac: AC, lo: int, hi: int) -> nat
    decreases hi - lo,
{
    if lo >= hi {
        0
    } else {
        (if ac.ensures((indices[lo] as usize,), true) {
            1nat
        } else {
            0nat
        }) + accepted_in(indices, ac, lo + 1, hi)
    }
}

/// The narrow tests an all-hits walk with limit `lim` makes in the subtree at
/// `i`: one per accepted primitive of every leaf whose bounds pass.
pub open spec fn narrows<B, NT: Fn(B, u32) -> bool, AC: Fn(usize) -> bool>(
    nodes: Seq<Node<B>>,
    indices: Seq<u32>,
    nt: NT,
    ac: AC,
    lim: u32,
    i: int,
) -> nat
    decreases nodes.len() - i,
{
    if 0 <= i < nodes.len() {
        let nd = nodes[i];
        if !nt.ensures((nd.bounds, lim), true) {
            0
        } else if nd.prim_count > 0 {
            accepted_in(indices, ac, nd.child_a as int, nd.child_a + nd.prim_count)
        } else if links_ok(nodes, i) {
            narrows(nodes, indices, nt, ac, lim, nd.child_a as int) + narrows(
                nodes,
                indices,
                nt,
                ac,
                lim,
                nd.child_b as int,
            )
        } else {
            0
        }
    } else {
        0
    }
}

/// The visits still due below the stack `s`.
pub open spec fn stack_visits<B, NT: Fn(B, u32) -> bool>(nodes: Seq<Node<B>>, nt: NT, lim: u32, s: Seq<u32>) -> nat
    decreases s.len(),
{
    if s.len() == 0 {
        0
    } else {
        stack_visits(nodes, nt, lim, s.drop_last()) + visits(nodes, nt, lim, s.last() as int)
    }
}

/// The narrow tests still due below the stack `s`.
pub open spec fn stack_narrows<B, NT: Fn(B, u32) -> bool, AC: Fn(usize) -> bool>(
    nodes: Seq<Node<B>>,
    indices: Seq<u32>,
    nt: NT,
    ac: AC,
    lim: u32,
    s: Seq<u32>,
) -> nat
    decreases s.len(),
{
    if s.len() == 0 {
        0
    } else {
        stack_narrows(nodes, indices, nt, ac, lim, s.drop_last()) + narrows(
            nodes,
            indices,
            nt,
            ac,
            lim,
            s.last() as int,
        )
    }
}

/// The primitives held below the stack `s`.
pub open spec fn stack_prims<B>(nodes: Seq<Node<B>>, s: Seq<u32>) -> nat
    decreases s.len(),
{
    if s.len() == 0 {
        0
    } else {
        stack_prims(nodes, s.drop_last()) + prims_below(nodes, s.last() as int)
    }
}

/// What the leaf test answers for `leaf` at limit `lim`: the hit it reports
/// there, or `None`.
pub open spec fn leaf_answer<P, LT: Fn(usize, u32) -> Option<(u32, P)>>(lt: LT, leaf: usize, lim: u32) -> Option<
    (u32, P),
> {
    if exists|h: (u32, P)| #[trigger] lt.ensures((leaf, lim), Some(h)) {
        Some(choose|h: (u32, P)| #[trigger] lt.ensures((leaf, lim), Some(h)))
    } else {
        None
    }
}

/// The best hit and limit of a nearest walk after it is offered `hit`: the
/// hit takes the place of the best one unless that comes no later.
pub open spec fn offer<P>(best: Option<Hit<P>>, limit: u32, hit: Hit<P>) -> (Option<Hit<P>>, u32) {
    match best {
        Some(prev) => if hit_before(hit, prev) {
            (Some(hit), hit.toi)
        } else {
            (best, limit)
        },
        None => (Some(hit), hit.toi),
    }
}

/// A nearest walk's pass over positions `k..end` of a leaf whose bounds
/// passed, from best hit `best`, limit `limit`, and `narrow` narrow tests and
/// `found` hits so far: one narrow test per accepted leaf, asked at the limit
/// of the moment, and one hit per narrow test that reports one. Gives the
/// best hit, limit, narrow tests and hits after it.
pub open spec fn leaf_pass<P, AC: Fn(usize) -> bool, LT: Fn(usize, u32) -> Option<(u32, P)>>(
    ac: AC,
    lt: LT,
    indices: Seq<u32>,
    k: int,
    end: int,
    best: Option<Hit<P>>,
    limit: u32,
    narrow: nat,
    found: nat,
) -> (Option<Hit<P>>, u32, nat, nat)
    decreases end - k,
{
    if k >= end {
        (best, limit, narrow, found)
    } else {
        let leaf = indices[k] as usize;
        if !ac.ensures((leaf,), true) {
            leaf_pass(ac, lt, indices, k + 1, end, best, limit, narrow, found)
        } else {
            match leaf_answer(lt, leaf, limit) {
                Some(h) => {
                    let o = offer(best, limit, Hit { leaf, toi: h.0, payload: h.1 });
                    leaf_pass(ac, lt, indices, k + 1, end, o.0, o.1, narrow + 1, found + 1)
                },
                None => leaf_pass(ac, lt, indices, k + 1, end, best, limit, narrow + 1, found),
            }
        }
    }
}

/// The node visits, narrow tests and hits a nearest walk has made after at
/// most `fuel` more pops from the stack `s`, from best hit `best`, limit
/// `limit` and counts `(visited, narrow, found)`: each pop visits a node and
/// tests its bounds at the current limit; a passing leaf is scanned by
/// [`leaf_pass`], a passing interior node pushes its first child, then its
/// second.
pub open spec fn nearest_walk<
    B,
    P,
    NT: Fn(B, u32) -> bool,
    AC: Fn(usize) -> bool,
    LT: Fn(usize, u32) -> Option<(u32, P)>,
>(
    nodes: Seq<Node<B>>,
    indices: Seq<u32>,
    nt: NT,
    ac: AC,
    lt: LT,
    fuel: nat,
    s: Seq<u32>,
    best: Option<Hit<P>>,
    limit: u32,
    visited: nat,
    narrow: nat,
    found: nat,
) -> (nat, nat, nat)
    decreases fuel,
{
    if fuel == 0 || s.len() == 0 {
        (visited, narrow, found)
    } else {
        let nd = nodes[s.last() as int];
        let rest = s.drop_last();
        let f = (fuel - 1) as nat;
        if !nt.ensures((nd.bounds, limit), true) {
            nearest_walk(nodes, indices, nt, ac, lt, f, rest, best, limit, visited + 1, narrow, found)
        } else if nd.prim_count > 0 {
            let r = leaf_pass(
                ac,
                lt,
                indices,
                nd.child_a as int,
                nd.child_a + nd.prim_count,
                best,
                limit,
                narrow,
                found,
            );
            nearest_walk(nodes, indices, nt, ac, lt, f, rest, r.0, r.1, visited + 1, r.2, r.3)
        } else {
            nearest_walk(
                nodes,
                indices,
                nt,
                ac,
                lt,
                f,
                rest.push(nd.child_a).push(nd.child_b),
                best,
                limit,
                visited + 1,
                narrow,
                found,
            )
        }
    }
}

impl<B: Copy> Tree<B> {
    /// The node visits, narrow tests and hits of a nearest walk within
    /// `max_toi` (see [`nearest_walk`]); an empty tree makes none.
    pub open spec fn nearest_counts<
        P,
        NT: Fn(B, u32) -> bool,
        AC: Fn(usize) -> bool,
        LT: Fn(usize, u32) -> Option<(u32, P)>,
    >(&self, nt: NT, ac: AC, lt: LT, max_toi: u32) -> (nat, nat, nat) {
        if self.node_seq().len() == 0 {
            (0, 0, 0)
        } else {
            nearest_walk(
                self.node_seq(),
                self.index_seq(),
                nt,
                ac,
                lt,
                self.node_seq().len(),
                seq![0u32],
                None::<Hit<P>>,
                max_toi,
                0,
                0,
                0,
            )
        }
    }
}

/// The leaf test's answer is the one it gave.
proof fn lemma_leaf_answer<P, LT: Fn(usize, u32) -> Option<(u32, P)>>(
    lt: LT,
    leaf: usize,
    lim: u32,
    r: Option<(u32, P)>,
)
    requires
        leaf_test_ok(lt),
        lt.ensures((leaf, lim), r),
    ensures
        leaf_answer(lt, leaf, lim) == r,
{
    match r {
        Some(h) => {
            assert(lt.ensures((leaf, lim), Some(h)));
            let c = choose|c: (u32, P)| #[trigger] lt.ensures((leaf, lim), Some(c));
            assert(lt.ensures((leaf, lim), Some(c)));
        },
        None => {
            if exists|h: (u32, P)| #[trigger] lt.ensures((leaf, lim), Some(h)) {
                let c = choose|c: (u32, P)| #[trigger] lt.ensures((leaf, lim), Some(c));
                assert(spec_key32(c.0) <= spec_key32(lim));
                assert(!lt.ensures((leaf, lim), None));
            }
        },
    }
}

/// An all-hits walk visits no more nodes than the subtree holds.
proof fn lemma_visits_bounded<B, NT: Fn(B, u32) -> bool>(nodes: Seq<Node<B>>, nt: NT, lim: u32, i: int)
    ensures
        visits(nodes, nt, lim, i) <= size(nodes, i),
    decreases nodes.len() - i,
{
    if 0 <= i < nodes.len() {
        let nd = nodes[i];
        if nd.prim_count == 0 && links_ok(nodes, i) {
            lemma_visits_bounded(nodes, nt, lim, nd.child_a as int);
            lemma_visits_bounded(nodes, nt, lim, nd.child_b as int);
        }
    }
}

/// At most every position in a range is accepted.
proof fn lemma_accepted_bounded<AC: Fn(usize) -> bool>(indices: Seq<u32>, ac: AC, lo: int, hi: int)
    requires
        lo <= hi,
    ensures
        accepted_in(indices, ac, lo, hi) <= hi - lo,
    decreases hi - lo,
{
    if lo < hi {
        lemma_accepted_bounded(indices, ac, lo + 1, hi);
    }
}

/// An all-hits walk makes no more narrow tests than the subtree holds
/// primitives.
proof fn lemma_narrows_bounded<B, NT: Fn(B, u32) -> bool, AC: Fn(usize) -> bool>(
    nodes: Seq<Node<B>>,
    indices: Seq<u32>,
    nt: NT,
    ac: AC,
    lim: u32,
    i: int,
)
    ensures
        narrows(nodes, indices, nt, ac, lim, i) <= prims_below(nodes, i),
    decreases nodes.len() - i,
{
    if 0 <= i < nodes.len() {
        let nd = nodes[i];
        if nd.prim_count > 0 {
            lemma_accepted_bounded(indices, ac, nd.child_a as int, nd.child_a + nd.prim_count);
        } else if links_ok(nodes, i) {
            lemma_narrows_bounded(nodes, indices, nt, ac, lim, nd.child_a as int);
            lemma_narrows_bounded(nodes, indices, nt, ac, lim, nd.child_b as int);
        }
    }
}

/// Sorting a duplicate-free list of exactly the candidates by the hit order
/// gives the all-hits answer.
pub proof fn lemma_sorted_all_hits<P, AC: Fn(usize) -> bool, LT: Fn(usize, u32) -> Option<(u32, P)>>(
    ac: AC,
    lt: LT,
    n: nat,
    max_toi: u32,
    unsorted: Seq<Hit<P>>,
    v: Seq<Hit<P>>,
)
    requires
        leaf_test_ok(lt),
        unsorted.no_duplicates(),
        v.to_multiset() == unsorted.to_multiset(),
        forall|i: int, j: int| 0 <= i < j < v.len() ==> !hit_before(v[j], v[i]),
        forall|h: Hit<P>| unsorted.contains(h) <==> #[trigger] ray_candidate(ac, lt, n, max_toi, h),
    ensures
        is_all_hits(ac, lt, n, max_toi, v),
{
    lemma_no_dup_perm(unsorted, v);
    assert forall|h: Hit<P>| v.contains(h) <==> unsorted.contains(h) by {
        vstd::seq_lib::to_multiset_contains(v, h);
        vstd::seq_lib::to_multiset_contains(unsorted, h);
    }
    assert forall|i: int, j: int| 0 <= i < j < v.len() implies hit_before(v[i], v[j]) by {
        assert(v.contains(v[i]));
        assert(v.contains(v[j]));
        assert(ray_candidate(ac, lt, n, max_toi, v[i]));
        assert(ray_candidate(ac, lt, n, max_toi, v[j]));
        if v[i].leaf == v[j].leaf {
            let hi = v[i];
            let hj = v[j];
            let l1 = choose|l1: u32| #[trigger] lt.ensures((hi.leaf, l1), Some((hi.toi, hi.payload)));
            let l2 = choose|l2: u32| #[trigger] lt.ensures((hj.leaf, l2), Some((hj.toi, hj.payload)));
            assert((hi.toi, hi.payload) == (hj.toi, hj.payload));
            assert(hi == hj);
            assert(v.no_duplicates());
            assert(v[i] != v[j]);
        }
        assert(!hit_before(v[j], v[i]));
    }
}

impl<B: Copy> Tree<B> {
    /// Nearest hit within `max_toi`.
    ///
    /// `node_test(bounds, limit)` says whether a node's bounds can be reached
    /// within `limit`; `accepts(leaf)` filters leaves; `leaf_test(leaf, limit)`
    /// is the exact test. The limit shrinks to the best hit so far.
    pub fn raycast_nearest<
        P,
        NT: Fn(B, u32) -> bool,
        AC: Fn(usize) -> bool,
        LT: Fn(usize, u32) -> Option<(u32, P)>,
    >(&self, max_toi: u32, node_test: &NT, accepts: &AC, leaf_test: &LT) -> (r: Option<Hit<P>>)
        requires
            self.wf(),
            node_test_ok(*node_test),
            accepts_ok(*accepts),
            leaf_test_ok(*leaf_test),
            prunes_soundly(self.node_seq(), self.index_seq(), *node_test, *leaf_test),
        ensures
            is_nearest(*accepts, *leaf_test, self.index_seq().len(), max_toi, r),
    {
        let mut scratch = QueryStats::new();
        self.raycast_nearest_stats(max_toi, node_test, accepts, leaf_test, &mut scratch)
    }

    /// Nearest hit within `max_toi`, counting the work into `stats`: one node
    /// visit and one bounds test per node popped, one narrow test per accepted
    /// primitive of a leaf whose bounds pass at the current limit, and one hit
    /// per narrow test that reports one; the counts added are exactly
    /// [`Tree::nearest_counts`]. A hit is counted exactly when there is a
    /// nearest hit.
    pub fn raycast_nearest_stats<
        P,
        NT: Fn(B, u32) -> bool,
        AC: Fn(usize) -> bool,
        LT: Fn(usize, u32) -> Option<(u32, P)>,
    >(&self, max_toi: u32, node_test: &NT, accepts: &AC, leaf_test: &LT, stats: &mut QueryStats) -> (r:
        Option<Hit<P>>)
        requires
            self.wf(),
            node_test_ok(*node_test),
            accepts_ok(*accepts),
            leaf_test_ok(*leaf_test),
            prunes_soundly(self.node_seq(), self.index_seq(), *node_test, *leaf_test),
            old(stats).nodes_visited + self.node_seq().len() <= u64::MAX,
            old(stats).aabb_tests + self.node_seq().len() <= u64::MAX,
            old(stats).narrow_tests + self.index_seq().len() <= u64::MAX,
            old(stats).hits + self.index_seq().len() <= u64::MAX,
        ensures
            is_nearest(*accepts, *leaf_test, self.index_seq().len(), max_toi, r),
            final(stats).nodes_visited + old(stats).aabb_tests == final(stats).aabb_tests + old(
                stats,
            ).nodes_visited,
            old(stats).nodes_visited <= final(stats).nodes_visited <= old(stats).nodes_visited
                + self.node_seq().len(),
            self.node_seq().len() > 0 ==> old(stats).nodes_visited < final(stats).nodes_visited,
            old(stats).narrow_tests <= final(stats).narrow_tests <= old(stats).narrow_tests
                + self.index_seq().len(),
            old(stats).hits <= final(stats).hits,
            final(stats).hits + old(stats).narrow_tests <= final(stats).narrow_tests + old(stats).hits,
            (r is Some) == (final(stats).hits > old(stats).hits),
            final(stats).nodes_visited == old(stats).nodes_visited + self.nearest_counts(
                *node_test,
                *accepts,
                *leaf_test,
                max_toi,
            ).0,
            final(stats).aabb_tests == old(stats).aabb_tests + self.nearest_counts(
                *node_test,
                *accepts,
                *leaf_test,
                max_toi,
            ).0,
            final(stats).narrow_tests == old(stats).narrow_tests + self.nearest_counts(
                *node_test,
                *accepts,
                *leaf_test,
                max_toi,
            ).1,
            final(stats).hits == old(stats).hits + self.nearest_counts(
                *node_test,
                *accepts,
                *leaf_test,
                max_toi,
            ).2,
    {
        let ghost base = *stats;
        let ghost total = self.nearest_counts(*node_test, *accepts, *leaf_test, max_toi);
        let nodes_v = self.nodes();
        let idx_v = self.prim_indices();
        let ghost nodes = self.node_seq();
        let ghost idx = self.index_seq();
        let ghost n = idx.len();
        proof {
            lemma_perm_facts(idx);
        }
        if nodes_v.len() == 0 {
            return None;
        }
        let mut best: Option<Hit<P>> = None;
        let mut limit = max_toi;
        let mut stack: Vec<u32> = Vec::new();
        stack.push(0);
        let ghost mut fuel: nat = nodes.len();
        proof {
            assert(stack@ =~= seq![0u32]);
            assert(stack@.drop_last() =~= Seq::<u32>::empty());
            assert(pending(nodes, Seq::<u32>::empty()) == Set::<int>::empty());
            assert(stack@.last() == 0);
            assert(pending(nodes, stack@) =~= covers(nodes, 0));
            assert(tree_wf(nodes, idx));
            assert(weight(nodes, Seq::<u32>::empty()) == 0);
            assert(stack_prims(nodes, Seq::<u32>::empty()) == 0);
            assert(weight(nodes, stack@) == nodes.len());
            assert(stack_prims(nodes, stack@) == n);
        }
        while stack.len() > 0
            invariant
                tree_wf(nodes, idx),
                nodes == nodes_v@,
                idx == idx_v@,
                n == idx.len(),
                forall|q: int| 0 <= q < n ==> (#[trigger] idx[q]) < n,
                node_test_ok(*node_test),
                accepts_ok(*accepts),
                leaf_test_ok(*leaf_test),
                prunes_soundly(nodes, idx, *node_test, *leaf_test),
                forall|k: int| 0 <= k < stack@.len() ==> (#[trigger] stack@[k]) < nodes.len(),
                best is None ==> limit == max_toi,
                best matches Some(b) ==> ray_candidate(*accepts, *leaf_test, n, max_toi, b)
                    && limit == b.toi,
                forall|q: int|
                    0 <= q < n && !pending(nodes, stack@).contains(q) ==> #[trigger] handled(
                        *accepts,
                        *leaf_test,
                        n,
                        max_toi,
                        idx,
                        best,
                        q,
                    ),
                base.nodes_visited + nodes.len() <= u64::MAX,
                base.aabb_tests + nodes.len() <= u64::MAX,
                base.narrow_tests + n <= u64::MAX,
                base.hits + n <= u64::MAX,
                stats.nodes_visited + base.aabb_tests == stats.aabb_tests + base.nodes_visited,
                base.nodes_visited <= stats.nodes_visited,
                stats.nodes_visited + weight(nodes, stack@) <= base.nodes_visited + nodes.len(),
                base.nodes_visited < stats.nodes_visited || stack@.len() > 0,
                base.narrow_tests <= stats.narrow_tests,
                stats.narrow_tests + stack_prims(nodes, stack@) <= base.narrow_tests + n,
                base.hits <= stats.hits,
                stats.hits + base.narrow_tests <= stats.narrow_tests + base.hits,
                (best is Some) == (stats.hits > base.hits),
                fuel >= weight(nodes, stack@),
                nearest_walk(
                    nodes,
                    idx,
                    *node_test,
                    *accepts,
                    *leaf_test,
                    fuel,
                    stack@,
                    best,
                    limit,
                    (stats.nodes_visited - base.nodes_visited) as nat,
                    (stats.narrow_tests - base.narrow_tests) as nat,
                    (stats.hits - base.hits) as nat,
                ) == total,
            decreases weight(nodes, stack@),
        {
            let ghost s0 = stack@;
            let ghost v0 = (stats.nodes_visited - base.nodes_visited) as nat;
            let ghost n0 = (stats.narrow_tests - base.narrow_tests) as nat;
            let ghost h0 = (stats.hits - base.hits) as nat;
            let ghost f0 = fuel;
            let ni = stack.pop().unwrap();
            let ghost rest = stack@;
            proof {
                assert(s0.drop_last() =~= rest);
                assert(pending(nodes, s0) == pending(nodes, rest).union(covers(nodes, ni as int)));
                assert(node_ok(nodes, n as int, ni as int));
                lemma_covers_in_range(nodes, n as int, ni as int);
                assert(s0.last() == ni);
                assert(weight(nodes, s0) == weight(nodes, rest) + size(nodes, ni as int));
                assert(stack_prims(nodes, s0) == stack_prims(nodes, rest) + prims_below(nodes, ni as int));
                assert(size(nodes, ni as int) >= 1);
                fuel = (fuel - 1) as nat;
            }
            stats.node();
            stats.aabb();
            let node = nodes_v[ni as usize];
            let pass = node_test(node.bounds, limit);
            proof {
                assert(pass == node_test.ensures((node.bounds, limit), true));
                assert(nodes[s0.last() as int] == node);
            }
            if !pass {
                proof {
                    assert forall|q: int|
                        0 <= q < n && !pending(nodes, stack@).contains(q) implies #[trigger] handled(
                        *accepts,
                        *leaf_test,
                        n,
                        max_toi,
                        idx,
                        best,
                        q,
                    ) by {
                        if covers(nodes, ni as int).contains(q) {
                            assert forall|h: Hit<P>|
                                #[trigger] ray_candidate(*accepts, *leaf_test, n, max_toi, h) && h.leaf
                                    == idx[q] implies (best matches Some(b) && !hit_before(h, b)) by {
                                let lim1 = choose|lim1: u32|
                                    #[trigger] leaf_test.ensures((h.leaf, lim1), Some((h.toi, h.payload)));
                                assert(leaf_test.ensures((idx[q] as usize, lim1), Some((h.toi, h.payload))));
                                assert(spec_key32(limit) < spec_key32(h.toi));
                            }
                        }
                    }
                }
                continue;
            }
            if node.prim_count > 0 {
                let start = node.child_a as usize;
                let end = start + node.prim_count as usize;
                proof {
                    assert(covers(nodes, ni as int) == range_set(start as int, end as int));
                    assert(prims_below(nodes, ni as int) == end - start);
                }
                let ghost old_stats = *stats;
                let ghost lp = leaf_pass(*accepts, *leaf_test, idx, start as int, end as int, best, limit, n0, h0);
                let mut k = start;
                while k < end
                    invariant
                        start <= k <= end <= n,
                        leaf_pass(
                            *accepts,
                            *leaf_test,
                            idx,
                            k as int,
                            end as int,
                            best,
                            limit,
                            (stats.narrow_tests - base.narrow_tests) as nat,
                            (stats.hits - base.hits) as nat,
                        ) == lp,
                        covers(nodes, ni as int) == range_set(start as int, end as int),
                        idx == idx_v@,
                        n == idx.len(),
                        forall|q: int| 0 <= q < n ==> (#[trigger] idx[q]) < n,
                        accepts_ok(*accepts),
                        leaf_test_ok(*leaf_test),
                        best is None ==> limit == max_toi,
                        best matches Some(b) ==> ray_candidate(*accepts, *leaf_test, n, max_toi, b)
                            && limit == b.toi,
                        forall|q: int|
                            0 <= q < n && !pending(nodes, stack@).contains(q) && !(k <= q < end)
                                ==> #[trigger] handled(
                                *accepts,
                                *leaf_test,
                                n,
                                max_toi,
                                idx,
                                best,
                                q,
                            ),
                        base.narrow_tests + n <= u64::MAX,
                        base.hits + n <= u64::MAX,
                        stats.nodes_visited == old_stats.nodes_visited,
                        stats.aabb_tests == old_stats.aabb_tests,
                        base.narrow_tests <= stats.narrow_tests,
                        stats.narrow_tests + stack_prims(nodes, rest) + (end - k) <= base.narrow_tests + n,
                        rest == stack@,
                        base.hits <= stats.hits,
                        stats.hits + base.narrow_tests <= stats.narrow_tests + base.hits,
                        (best is Some) == (stats.hits > base.hits),
                    decreases end - k,
                {
                    let ghost old_best = best;
                    let ghost old_limit = limit;
                    let ghost dn = (stats.narrow_tests - base.narrow_tests) as nat;
                    let ghost dh = (stats.hits - base.hits) as nat;
                    let leaf = idx_v[k] as usize;
                    let acc = accepts(leaf);
                    proof {
                        assert(acc == accepts.ensures((leaf,), true));
                    }
                    if acc {
                        stats.narrow();
                        let ans = leaf_test(leaf, limit);
                        proof {
                            lemma_leaf_answer(*leaf_test, leaf, limit, ans);
                        }
                        match ans {
                            Some((t, p)) => {
                                let hit = Hit { leaf, toi: t, payload: p };
                                proof {
                                    assert(leaf_test.ensures((leaf, old_limit), Some((t, p))));
                                    assert(leaf_hit(*leaf_test, leaf, (t, p)));
                                }
                                stats.hit();
                                let keep = match &best {
                                    Some(prev) => hit_le(prev, &hit),
                                    None => false,
                                };
                                if !keep {
                                    limit = t;
                                    best = Some(hit);
                                }
                                proof {
                                    assert(ray_candidate(*accepts, *leaf_test, n, max_toi, hit));
                                    assert forall|q: int|
                                        0 <= q < n && !pending(nodes, stack@).contains(q) && !(k + 1
                                            <= q < end) implies #[trigger] handled(
                                        *accepts,
                                        *leaf_test,
                                        n,
                                        max_toi,
                                        idx,
                                        best,
                                        q,
                                    ) by {
                                        if q == k {
                                            assert forall|h: Hit<P>|
                                                #[trigger] ray_candidate(*accepts, *leaf_test, n, max_toi, h)
                                                    && h.leaf == idx[q] implies (best matches Some(b)
                                                && !hit_before(h, b)) by {
                                                let lim1 = choose|lim1: u32|
                                                    #[trigger] leaf_test.ensures(
                                                        (h.leaf, lim1),
                                                        Some((h.toi, h.payload)),
                                                    );
                                                assert(leaf_test.ensures((leaf, lim1), Some((h.toi, h.payload))));
                                                assert((h.toi, h.payload) == (t, p));
                                            }
                                        } else {
                                            assert(handled(
                                                *accepts,
                                                *leaf_test,
                                                n,
                                                max_toi,
                                                idx,
                                                old_best,
                                                q,
                                            ));
                                        }
                                    }
                                }
                            },
                            None => {
                                proof {
                                    assert forall|h: Hit<P>|
                                        #[trigger] ray_candidate(*accepts, *leaf_test, n, max_toi, h)
                                            && h.leaf == leaf implies (best matches Some(b)
                                        && !hit_before(h, b)) by {
                                        let lim1 = choose|lim1: u32|
                                            #[trigger] leaf_test.ensures(
                                                (h.leaf, lim1),
                                                Some((h.toi, h.payload)),
                                            );
                                        assert(leaf_test.ensures((leaf, lim1), Some((h.toi, h.payload))));
                                        assert(leaf_test.ensures((leaf, limit), None));
                                        assert(spec_key32(limit) < spec_key32(h.toi));
                                    }
                                    assert(handled(*accepts, *leaf_test, n, max_toi, idx, best, k as int));
                                }
                            },
                        }
                    } else {
                        proof {
                            assert forall|h: Hit<P>|
                                #[trigger] ray_candidate(*accepts, *leaf_test, n, max_toi, h) && h.leaf
                                    == leaf implies (best matches Some(b) && !hit_before(h, b)) by {
                                assert(accepts.ensures((leaf,), false));
                            }
                            assert(handled(*accepts, *leaf_test, n, max_toi, idx, best, k as int));
                        }
                    }
                    k = k + 1;
                }
            } else {
                stack.push(node.child_a);
                stack.push(node.child_b);
                proof {
                    let s2 = stack@;
                    assert(s2.drop_last().drop_last() =~= rest);
                    assert(s2.drop_last().last() == node.child_a);
                    assert(s2.last() == node.child_b);
                    assert(pending(nodes, s2.drop_last()) == pending(nodes, rest).union(
                        covers(nodes, node.child_a as int),
                    ));
                    assert(pending(nodes, s2) == pending(nodes, s2.drop_last()).union(
                        covers(nodes, node.child_b as int),
                    ));
                    assert(covers(nodes, ni as int) == covers(nodes, node.child_a as int).union(
                        covers(nodes, node.child_b as int),
                    ));
                    assert(pending(nodes, s2) =~= pending(nodes, s0));
                    assert(weight(nodes, s2.drop_last()) == weight(nodes, rest) + size(
                        nodes,
                        node.child_a as int,
                    ));
                    assert(size(nodes, ni as int) == 1 + size(nodes, node.child_a as int) + size(
                        nodes,
                        node.child_b as int,
                    ));
                    assert(weight(nodes, s2) < weight(nodes, s0));
                    assert(stack_prims(nodes, s2.drop_last()) == stack_prims(nodes, rest) + prims_below(
                        nodes,
                        node.child_a as int,
                    ));
                    assert(stack_prims(nodes, s2) == stack_prims(nodes, s0));
                }
            }
        }
        let ghost gb = best;
        proof {
            assert(stack@ =~= Seq::<u32>::empty());
            match gb {
                None => {
                    assert forall|h: Hit<P>| !#[trigger] ray_candidate(*accepts, *leaf_test, n, max_toi, h) by {
                        if ray_candidate(*accepts, *leaf_test, n, max_toi, h) {
                            let q = lemma_candidate_position(*accepts, *leaf_test, max_toi, idx, h);
                            assert(handled(*accepts, *leaf_test, n, max_toi, idx, best, q));
                        }
                    }
                },
                Some(b) => {
                    assert forall|h: Hit<P>| #[trigger] ray_candidate(*accepts, *leaf_test, n, max_toi, h)
                        implies !hit_before(h, b) by {
                        let q = lemma_candidate_position(*accepts, *leaf_test, max_toi, idx, h);
                        assert(handled(*accepts, *leaf_test, n, max_toi, idx, best, q));
                    }
                },
            }
        }
        best
    }
}

impl<B: Copy> Tree<B> {
    /// Every hit within `max_toi`, sorted nearest first (then by leaf).
    pub fn raycast_all<
        P,
        NT: Fn(B, u32) -> bool,
        AC: Fn(usize) -> bool,
        LT: Fn(usize, u32) -> Option<(u32, P)>,
    >(&self, max_toi: u32, node_test: &NT, accepts: &AC, leaf_test: &LT) -> (r: Vec<Hit<P>>)
        requires
            self.wf(),
            node_test_ok(*node_test),
            accepts_ok(*accepts),
            leaf_test_ok(*leaf_test),
            prunes_soundly(self.node_seq(), self.index_seq(), *node_test, *leaf_test),
        ensures
            is_all_hits(*accepts, *leaf_test, self.index_seq().len(), max_toi, r@),
    {
        let mut scratch = QueryStats::new();
        self.raycast_all_stats(max_toi, node_test, accepts, leaf_test, &mut scratch)
    }

    /// Every hit within `max_toi`, sorted nearest first (then by leaf),
    /// counting the work into `stats`: one node visit and one bounds test per
    /// node popped, one narrow test per accepted primitive of a leaf whose
    /// bounds pass, and one hit per narrow test that reports one.
    pub fn raycast_all_stats<
        P,
        NT: Fn(B, u32) -> bool,
        AC: Fn(usize) -> bool,
        LT: Fn(usize, u32) -> Option<(u32, P)>,
    >(&self, max_toi: u32, node_test: &NT, accepts: &AC, leaf_test: &LT, stats: &mut QueryStats) -> (r: Vec<
        Hit<P>,
    >)
        requires
            self.wf(),
            node_test_ok(*node_test),
            accepts_ok(*accepts),
            leaf_test_ok(*leaf_test),
            prunes_soundly(self.node_seq(), self.index_seq(), *node_test, *leaf_test),
            old(stats).nodes_visited + self.node_seq().len() <= u64::MAX,
            old(stats).aabb_tests + self.node_seq().len() <= u64::MAX,
            old(stats).narrow_tests + self.index_seq().len() <= u64::MAX,
            old(stats).hits + self.index_seq().len() <= u64::MAX,
        ensures
            is_all_hits(*accepts, *leaf_test, self.index_seq().len(), max_toi, r@),
            final(stats).nodes_visited == old(stats).nodes_visited + visits(
                self.node_seq(),
                *node_test,
                max_toi,
                0,
            ),
            final(stats).aabb_tests == old(stats).aabb_tests + visits(self.node_seq(), *node_test, max_toi, 0),
            final(stats).narrow_tests == old(stats).narrow_tests + narrows(
                self.node_seq(),
                self.index_seq(),
                *node_test,
                *accepts,
                max_toi,
                0,
            ),
            final(stats).hits == old(stats).hits + r@.len(),
    {
        let ghost base = *stats;
        let nodes_v = self.nodes();
        let idx_v = self.prim_indices();
        let ghost nodes = self.node_seq();
        let ghost idx = self.index_seq();
        let ghost n = idx.len();
        let ghost total = visits(nodes, *node_test, max_toi, 0);
        let ghost total_narrow = narrows(nodes, idx, *node_test, *accepts, max_toi, 0);
        proof {
            lemma_perm_facts(idx);
            lemma_visits_bounded(nodes, *node_test, max_toi, 0);
            lemma_narrows_bounded(nodes, idx, *node_test, *accepts, max_toi, 0);
        }
        let mut hits: Vec<Hit<P>> = Vec::new();
        if nodes_v.len() == 0 {
            proof {
                assert forall|h: Hit<P>| hits@.contains(h) <==> #[trigger] ray_candidate(
                    *accepts,
                    *leaf_test,
                    n,
                    max_toi,
                    h,
                ) by {}
            }
            return hits;
        }
        let mut stack: Vec<u32> = Vec::new();
        stack.push(0);
        proof {
            assert(stack@.drop_last() =~= Seq::<u32>::empty());
            assert(pending(nodes, Seq::<u32>::empty()) == Set::<int>::empty());
            assert(stack@.last() == 0);
            assert(pending(nodes, stack@) =~= covers(nodes, 0));
            assert(tree_wf(nodes, idx));
            assert(stack_visits(nodes, *node_test, max_toi, Seq::<u32>::empty()) == 0);
            assert(stack_narrows(nodes, idx, *node_test, *accepts, max_toi, Seq::<u32>::empty()) == 0);
            assert(stack_visits(nodes, *node_test, max_toi, stack@) == total);
            assert(stack_narrows(nodes, idx, *node_test, *accepts, max_toi, stack@) == total_narrow);
        }
        while stack.len() > 0
            invariant
                tree_wf(nodes, idx),
                nodes == nodes_v@,
                idx == idx_v@,
                n == idx.len(),
                forall|q: int| 0 <= q < n ==> (#[trigger] idx[q]) < n,
                idx.no_duplicates(),
                node_test_ok(*node_test),
                accepts_ok(*accepts),
                leaf_test_ok(*leaf_test),
                prunes_soundly(nodes, idx, *node_test, *leaf_test),
                forall|k: int| 0 <= k < stack@.len() ==> (#[trigger] stack@[k]) < nodes.len(),
                forall|k1: int, k2: int|
                    0 <= k1 < k2 < stack@.len() ==> covers(nodes, #[trigger] stack@[k1] as int).disjoint(
                        covers(nodes, #[trigger] stack@[k2] as int),
                    ),
                forall|h: Hit<P>|
                    #![trigger hits@.contains(h)]
                    #![trigger ray_candidate(*accepts, *leaf_test, n, max_toi, h)]
                    hits@.contains(h) <==> (ray_candidate(*accepts, *leaf_test, n, max_toi, h)
                        && seen(idx, pending(nodes, stack@), 0, 0, h.leaf)),
                forall|i: int, j: int|
                    0 <= i < j < hits@.len() ==> (#[trigger] hits@[i]).leaf != (#[trigger] hits@[j]).leaf,
                total == visits(nodes, *node_test, max_toi, 0),
                total_narrow == narrows(nodes, idx, *node_test, *accepts, max_toi, 0),
                total <= nodes.len(),
                total_narrow <= n,
                base.nodes_visited + nodes.len() <= u64::MAX,
                base.aabb_tests + nodes.len() <= u64::MAX,
                base.narrow_tests + n <= u64::MAX,
                base.hits + n <= u64::MAX,
                stats.nodes_visited + stack_visits(nodes, *node_test, max_toi, stack@) == base.nodes_visited
                    + total,
                stats.aabb_tests + stack_visits(nodes, *node_test, max_toi, stack@) == base.aabb_tests + total,
                stats.narrow_tests + stack_narrows(nodes, idx, *node_test, *accepts, max_toi, stack@)
                    == base.narrow_tests + total_narrow,
                stats.hits == base.hits + hits@.len(),
                base.narrow_tests + hits@.len() <= stats.narrow_tests,
            decreases weight(nodes, stack@),
        {
            let ghost s0 = stack@;
            let ni = stack.pop().unwrap();
            let ghost rest = stack@;
            proof {
                assert(s0.drop_last() =~= rest);
                assert(s0.last() == ni);
                assert(stack_visits(nodes, *node_test, max_toi, s0) == stack_visits(
                    nodes,
                    *node_test,
                    max_toi,
                    rest,
                ) + visits(nodes, *node_test, max_toi, ni as int));
                assert(stack_narrows(nodes, idx, *node_test, *accepts, max_toi, s0) == stack_narrows(
                    nodes,
                    idx,
                    *node_test,
                    *accepts,
                    max_toi,
                    rest,
                ) + narrows(nodes, idx, *node_test, *accepts, max_toi, ni as int));
            }
            stats.node();
            stats.aabb();
            proof {
                assert(s0.drop_last() =~= rest);
                assert(pending(nodes, s0) == pending(nodes, rest).union(covers(nodes, ni as int)));
                assert(node_ok(nodes, n as int, ni as int));
                lemma_covers_in_range(nodes, n as int, ni as int);
                assert forall|k: int| 0 <= k < rest.len() implies covers(nodes, ni as int).disjoint(
                    covers(nodes, #[trigger] rest[k] as int),
                ) by {
                    assert(rest[k] == s0[k]);
                    assert(s0[s0.len() - 1] == ni);
                }
                lemma_pending_disjoint(nodes, rest, covers(nodes, ni as int));
            }
            let node = nodes_v[ni as usize];
            if !node_test(node.bounds, max_toi) {
                proof {
                    assert forall|h: Hit<P>|
                        hits@.contains(h) <==> (#[trigger] ray_candidate(
                            *accepts,
                            *leaf_test,
                            n,
                            max_toi,
                            h,
                        ) && seen(idx, pending(nodes, stack@), 0, 0, h.leaf)) by {
                        if ray_candidate(*accepts, *leaf_test, n, max_toi, h) && seen(
                            idx,
                            pending(nodes, stack@),
                            0,
                            0,
                            h.leaf,
                        ) {
                            let q = choose|q: int|
                                0 <= q < idx.len() && #[trigger] idx[q] == h.leaf && !pending(
                                    nodes,
                                    stack@,
                                ).contains(q) && !(0 <= q < 0);
                            if covers(nodes, ni as int).contains(q) {
                                let lim1 = choose|lim1: u32|
                                    #[trigger] leaf_test.ensures((h.leaf, lim1), Some((h.toi, h.payload)));
                                assert(leaf_test.ensures((idx[q] as usize, lim1), Some((h.toi, h.payload))));
                                assert(spec_key32(max_toi) < spec_key32(h.toi));
                            } else {
                                assert(seen(idx, pending(nodes, s0), 0, 0, h.leaf));
                            }
                        }
                        if hits@.contains(h) {
                            let q = choose|q: int|
                                0 <= q < idx.len() && #[trigger] idx[q] == h.leaf && !pending(
                                    nodes,
                                    s0,
                                ).contains(q) && !(0 <= q < 0);
                            assert(seen(idx, pending(nodes, stack@), 0, 0, h.leaf));
                        }
                    }
                }
                continue;
            }
            proof {
                assert(node_test.ensures((node.bounds, max_toi), true));
            }
            if node.prim_count > 0 {
                let start = node.child_a as usize;
                let end = start + node.prim_count as usize;
                proof {
                    assert(narrows(nodes, idx, *node_test, *accepts, max_toi, ni as int) == accepted_in(
                        idx,
                        *accepts,
                        start as int,
                        end as int,
                    ));
                    assert(covers(nodes, ni as int) == range_set(start as int, end as int));
                    assert forall|h: Hit<P>|
                        hits@.contains(h) <==> (#[trigger] ray_candidate(
                            *accepts,
                            *leaf_test,
                            n,
                            max_toi,
                            h,
                        ) && seen(idx, pending(nodes, rest), start as int, end as int, h.leaf)) by {
                        if hits@.contains(h) {
                            let q = choose|q: int|
                                0 <= q < idx.len() && #[trigger] idx[q] == h.leaf && !pending(
                                    nodes,
                                    s0,
                                ).contains(q) && !(0 <= q < 0);
                            assert(seen(idx, pending(nodes, rest), start as int, end as int, h.leaf));
                        }
                        if ray_candidate(*accepts, *leaf_test, n, max_toi, h) && seen(
                            idx,
                            pending(nodes, rest),
                            start as int,
                            end as int,
                            h.leaf,
                        ) {
                            let q = choose|q: int|
                                0 <= q < idx.len() && #[trigger] idx[q] == h.leaf && !pending(
                                    nodes,
                                    rest,
                                ).contains(q) && !(start <= q < end);
                            assert(seen(idx, pending(nodes, s0), 0, 0, h.leaf));
                        }
                    }
                }
                let ghost old_stats = *stats;
                let mut k = start;
                while k < end
                    invariant
                        start <= k <= end <= n,
                        covers(nodes, ni as int) == range_set(start as int, end as int),
                        covers(nodes, ni as int).disjoint(pending(nodes, rest)),
                        rest == stack@,
                        idx == idx_v@,
                        n == idx.len(),
                        forall|q: int| 0 <= q < n ==> (#[trigger] idx[q]) < n,
                        idx.no_duplicates(),
                        accepts_ok(*accepts),
                        leaf_test_ok(*leaf_test),
                        forall|h: Hit<P>|
                            #![trigger hits@.contains(h)]
                            #![trigger ray_candidate(*accepts, *leaf_test, n, max_toi, h)]
                            hits@.contains(h) <==> (ray_candidate(*accepts, *leaf_test, n, max_toi, h)
                                && seen(idx, pending(nodes, rest), k as int, end as int, h.leaf)),
                        forall|i: int, j: int|
                            0 <= i < j < hits@.len() ==> (#[trigger] hits@[i]).leaf != (
                            #[trigger] hits@[j]).leaf,
                        total_narrow <= n,
                        base.narrow_tests + n <= u64::MAX,
                        base.hits + n <= u64::MAX,
                        stats.narrow_tests + stack_narrows(nodes, idx, *node_test, *accepts, max_toi, rest)
                            + accepted_in(idx, *accepts, k as int, end as int) == base.narrow_tests
                            + total_narrow,
                        stats.hits == base.hits + hits@.len(),
                        base.narrow_tests + hits@.len() <= stats.narrow_tests,
                        stats.nodes_visited == old_stats.nodes_visited,
                        stats.aabb_tests == old_stats.aabb_tests,
                    decreases end - k,
                {
                    let ghost old_hits = hits@;
                    let leaf = idx_v[k] as usize;
                    proof {
                        assert(!pending(nodes, rest).contains(k as int));
                        // The only position holding `leaf` is `k`.
                        assert forall|q: int| 0 <= q < n && #[trigger] idx[q] == leaf implies q == k by {}
                    }
                    let acc = accepts(leaf);
                    proof {
                        assert(accepted_in(idx, *accepts, k as int, end as int) == (if accepts.ensures(
                            (leaf,),
                            true,
                        ) {
                            1nat
                        } else {
                            0nat
                        }) + accepted_in(idx, *accepts, k + 1, end as int));
                        assert(acc == accepts.ensures((leaf,), true));
                    }
                    let ghost mut newh: Option<Hit<P>> = None;
                    if acc {
                        stats.narrow();
                        match leaf_test(leaf, max_toi) {
                            Some((t, p)) => {
                                let hit = Hit { leaf, toi: t, payload: p };
                                proof {
                                    assert(leaf_test.ensures((leaf, max_toi), Some((t, p))));
                                    assert(leaf_hit(*leaf_test, leaf, (t, p)));
                                    assert(ray_candidate(*accepts, *leaf_test, n, max_toi, hit));
                                }
                                stats.hit();
                                hits.push(hit);
                                proof {
                                    newh = Some(hit);
                                    assert forall|h: Hit<P>|
                                        #[trigger] ray_candidate(*accepts, *leaf_test, n, max_toi, h)
                                            && h.leaf == leaf implies h == hit by {
                                        let lim1 = choose|lim1: u32|
                                            #[trigger] leaf_test.ensures(
                                                (h.leaf, lim1),
                                                Some((h.toi, h.payload)),
                                            );
                                        assert(leaf_test.ensures((leaf, lim1), Some((h.toi, h.payload))));
                                        assert((h.toi, h.payload) == (t, p));
                                    }
                                }
                            },
                            None => {
                                proof {
                                    assert forall|h: Hit<P>|
                                        !(#[trigger] ray_candidate(*accepts, *leaf_test, n, max_toi, h)
                                            && h.leaf == leaf) by {
                                        if ray_candidate(*accepts, *leaf_test, n, max_toi, h) && h.leaf
                                            == leaf {
                                            let lim1 = choose|lim1: u32|
                                                #[trigger] leaf_test.ensures(
                                                    (h.leaf, lim1),
                                                    Some((h.toi, h.payload)),
                                                );
                                            assert(leaf_test.ensures((leaf, lim1), Some((h.toi, h.payload))));
                                            assert(leaf_test.ensures((leaf, max_toi), None));
                                        }
                                    }
                                }
                            },
                        }
                    } else {
                        proof {
                            assert forall|h: Hit<P>|
                                !(#[trigger] ray_candidate(*accepts, *leaf_test, n, max_toi, h) && h.leaf
                                    == leaf) by {
                                if ray_candidate(*accepts, *leaf_test, n, max_toi, h) && h.leaf == leaf {
                                    assert(accepts.ensures((leaf,), false));
                                }
                            }
                        }
                    }
                    proof {
                        assert forall|h: Hit<P>|
                            (#[trigger] ray_candidate(*accepts, *leaf_test, n, max_toi, h) && h.leaf == leaf)
                                <==> newh == Some(h) by {}
                        assert(hits@ == (match newh {
                            Some(x) => old_hits.push(x),
                            None => old_hits,
                        }));
                        assert forall|h: Hit<P>|
                            hits@.contains(h) <==> (#[trigger] ray_candidate(
                                *accepts,
                                *leaf_test,
                                n,
                                max_toi,
                                h,
                            ) && seen(idx, pending(nodes, rest), k + 1, end as int, h.leaf)) by {
                            if old_hits.contains(h) && h.leaf == leaf {
                                let q = choose|q: int|
                                    0 <= q < idx.len() && #[trigger] idx[q] == h.leaf && !pending(
                                        nodes,
                                        rest,
                                    ).contains(q) && !(k <= q < end);
                                assert(false);
                            }
                            if hits@.contains(h) {
                                let i = choose|i: int| 0 <= i < hits@.len() && hits@[i] == h;
                                if i < old_hits.len() {
                                    assert(old_hits[i] == h);
                                    assert(old_hits.contains(h));
                                }
                            }
                            if old_hits.contains(h) {
                                let i = choose|i: int| 0 <= i < old_hits.len() && old_hits[i] == h;
                                assert(hits@[i] == h);
                            }
                            if newh == Some(h) {
                                assert(hits@[hits@.len() - 1] == h);
                            }
                            if h.leaf == leaf {
                                if ray_candidate(*accepts, *leaf_test, n, max_toi, h) {
                                    assert(idx[k as int] == leaf);
                                    assert(seen(idx, pending(nodes, rest), k + 1, end as int, h.leaf));
                                }
                            } else {
                                if seen(idx, pending(nodes, rest), k + 1, end as int, h.leaf) {
                                    let q = choose|q: int|
                                        0 <= q < idx.len() && #[trigger] idx[q] == h.leaf && !pending(
                                            nodes,
                                            rest,
                                        ).contains(q) && !(k + 1 <= q < end);
                                    assert(q != k);
                                    assert(seen(idx, pending(nodes, rest), k as int, end as int, h.leaf));
                                }
                                if seen(idx, pending(nodes, rest), k as int, end as int, h.leaf) {
                                    let q = choose|q: int|
                                        0 <= q < idx.len() && #[trigger] idx[q] == h.leaf && !pending(
                                            nodes,
                                            rest,
                                        ).contains(q) && !(k <= q < end);
                                    assert(seen(idx, pending(nodes, rest), k + 1, end as int, h.leaf));
                                }
                            }
                        }
                        assert forall|i: int, j: int|
                            0 <= i < j < hits@.len() implies (#[trigger] hits@[i]).leaf != (
                            #[trigger] hits@[j]).leaf by {
                            if j >= old_hits.len() {
                                let hi = hits@[i];
                                assert(old_hits[i] == hi);
                                assert(old_hits.contains(hi));
                                let q = choose|q: int|
                                    0 <= q < idx.len() && #[trigger] idx[q] == hi.leaf && !pending(
                                        nodes,
                                        rest,
                                    ).contains(q) && !(k <= q < end);
                            } else {
                                assert(hits@[i] == old_hits[i]);
                                assert(hits@[j] == old_hits[j]);
                            }
                        }
                    }
                    k = k + 1;
                }
                proof {
                    assert forall|h: Hit<P>|
                        hits@.contains(h) <==> (#[trigger] ray_candidate(
                            *accepts,
                            *leaf_test,
                            n,
                            max_toi,
                            h,
                        ) && seen(idx, pending(nodes, stack@), 0, 0, h.leaf)) by {
                        if seen(idx, pending(nodes, stack@), 0, 0, h.leaf) {
                            let q = choose|q: int|
                                0 <= q < idx.len() && #[trigger] idx[q] == h.leaf && !pending(
                                    nodes,
                                    stack@,
                                ).contains(q) && !(0 <= q < 0);
                            assert(seen(idx, pending(nodes, rest), end as int, end as int, h.leaf));
                        }
                        if seen(idx, pending(nodes, rest), end as int, end as int, h.leaf) {
                            let q = choose|q: int|
                                0 <= q < idx.len() && #[trigger] idx[q] == h.leaf && !pending(
                                    nodes,
                                    rest,
                                ).contains(q) && !(end <= q < end);
                            assert(seen(idx, pending(nodes, stack@), 0, 0, h.leaf));
                        }
                    }
                }
            } else {
                stack.push(node.child_a);
                stack.push(node.child_b);
                proof {
                    let s2 = stack@;
                    assert(s2.drop_last().drop_last() =~= rest);
                    assert(node_ok(nodes, n as int, ni as int));
                    let s1 = s2.drop_last();
                    assert(s1.last() == node.child_a);
                    assert(s2.last() == node.child_b);
                    assert(stack_visits(nodes, *node_test, max_toi, s1) == stack_visits(
                        nodes,
                        *node_test,
                        max_toi,
                        rest,
                    ) + visits(nodes, *node_test, max_toi, node.child_a as int));
                    assert(stack_narrows(nodes, idx, *node_test, *accepts, max_toi, s1) == stack_narrows(
                        nodes,
                        idx,
                        *node_test,
                        *accepts,
                        max_toi,
                        rest,
                    ) + narrows(nodes, idx, *node_test, *accepts, max_toi, node.child_a as int));
                    assert(stack_visits(nodes, *node_test, max_toi, s2) == stack_visits(
                        nodes,
                        *node_test,
                        max_toi,
                        rest,
                    ) + visits(nodes, *node_test, max_toi, node.child_a as int) + visits(
                        nodes,
                        *node_test,
                        max_toi,
                        node.child_b as int,
                    ));
                    assert(stack_narrows(nodes, idx, *node_test, *accepts, max_toi, s2) == stack_narrows(
                        nodes,
                        idx,
                        *node_test,
                        *accepts,
                        max_toi,
                        rest,
                    ) + narrows(nodes, idx, *node_test, *accepts, max_toi, node.child_a as int) + narrows(
                        nodes,
                        idx,
                        *node_test,
                        *accepts,
                        max_toi,
                        node.child_b as int,
                    ));
                    assert(s2.drop_last().last() == node.child_a);
                    assert(s2.last() == node.child_b);
                    assert(pending(nodes, s2.drop_last()) == pending(nodes, rest).union(
                        covers(nodes, node.child_a as int),
                    ));
                    assert(pending(nodes, s2) == pending(nodes, s2.drop_last()).union(
                        covers(nodes, node.child_b as int),
                    ));
                    assert(covers(nodes, ni as int) == covers(nodes, node.child_a as int).union(
                        covers(nodes, node.child_b as int),
                    ));
                    assert(pending(nodes, s2) =~= pending(nodes, s0));
                    assert(weight(nodes, s2.drop_last()) == weight(nodes, rest) + size(
                        nodes,
                        node.child_a as int,
                    ));
                    assert(size(nodes, ni as int) == 1 + size(nodes, node.child_a as int) + size(
                        nodes,
                        node.child_b as int,
                    ));
                    assert(weight(nodes, s2) < weight(nodes, s0));
                    assert forall|k1: int, k2: int|
                        0 <= k1 < k2 < s2.len() implies covers(nodes, #[trigger] s2[k1] as int).disjoint(
                            covers(nodes, #[trigger] s2[k2] as int),
                        ) by {
                        if k2 >= rest.len() && k1 < rest.len() {
                            assert(s2[k1] == rest[k1]);
                            assert(rest[k1] == s0[k1]);
                            assert(covers(nodes, ni as int).disjoint(covers(nodes, rest[k1] as int)));
                        } else if k2 < rest.len() {
                            assert(s2[k1] == s0[k1]);
                            assert(s2[k2] == s0[k2]);
                        }
                    }
                }
            }
        }
        let ghost unsorted = hits@;
        proof {
            assert(stack@ =~= Seq::<u32>::empty());
            assert forall|h: Hit<P>|
                unsorted.contains(h) <==> #[trigger] ray_candidate(
                    *accepts,
                    *leaf_test,
                    n,
                    max_toi,
                    h,
                ) by {
                if ray_candidate(*accepts, *leaf_test, n, max_toi, h) {
                    let q = lemma_candidate_position(*accepts, *leaf_test, max_toi, idx, h);
                    assert(seen(idx, pending(nodes, stack@), 0, 0, h.leaf));
                }
            }
            assert forall|i: int, j: int|
                0 <= i < unsorted.len() && 0 <= j < unsorted.len() && i != j implies unsorted[i]
                != unsorted[j] by {
                if i < j {
                    assert(unsorted[i].leaf != unsorted[j].leaf);
                } else {
                    assert(unsorted[j].leaf != unsorted[i].leaf);
                }
            }
            assert(unsorted.no_duplicates());
        }
        sort_hits(&mut hits);
        proof {
            lemma_sorted_all_hits(*accepts, *leaf_test, n, max_toi, unsorted, hits@);
        }
        hits
    }
}

impl<B: Copy> Tree<B> {
    /// Every leaf whose exact geometry meets the query region, in ascending
    /// leaf order.
    ///
    /// `region_test(bounds)` says whether bounds meet the region; it is asked
    /// of node bounds while descending and of `leaf_bounds[leaf]`, the leaf's
    /// own bounds, before the exact test. `overlap_test(leaf)` is the exact
    /// test, giving the leaf's id when it overlaps.
    pub fn overlap<
        Id,
        RT: Fn(B) -> bool,
        AC: Fn(usize) -> bool,
        OT: Fn(usize) -> Option<Id>,
    >(
        &self,
        region_test: &RT,
        leaf_bounds: &Vec<B>,
        accepts: &AC,
        overlap_test: &OT,
    ) -> (r: Vec<Overlap<Id>>)
        requires
            self.wf(),
            leaf_bounds@.len() >= self.index_seq().len(),
            region_test_ok(*region_test),
            accepts_ok(*accepts),
            overlap_test_ok(*overlap_test),
            region_prunes_soundly(self.node_seq(), self.index_seq(), *region_test, leaf_bounds@),
        ensures
            is_all_overlaps(
                *accepts,
                *region_test,
                leaf_bounds@,
                *overlap_test,
                self.index_seq().len(),
                r@,
            ),
    {
        let nodes_v = self.nodes();
        let idx_v = self.prim_indices();
        let ghost nodes = self.node_seq();
        let ghost idx = self.index_seq();
        let ghost n = idx.len();
        proof {
            lemma_perm_facts(idx);
        }
        let mut out: Vec<Overlap<Id>> = Vec::new();
        if nodes_v.len() == 0 {
            proof {
                assert forall|h: Overlap<Id>| out@.contains(h) <==> #[trigger] overlap_candidate(*accepts, *region_test, leaf_bounds@, *overlap_test, n, h) by {}
            }
            return out;
        }
        let mut stack: Vec<u32> = Vec::new();
        stack.push(0);
        proof {
            assert(stack@.drop_last() =~= Seq::<u32>::empty());
            assert(pending(nodes, Seq::<u32>::empty()) == Set::<int>::empty());
            assert(stack@.last() == 0);
            assert(pending(nodes, stack@) =~= covers(nodes, 0));
        }
        while stack.len() > 0
            invariant
                tree_wf(nodes, idx),
                nodes == nodes_v@,
                idx == idx_v@,
                n == idx.len(),
                forall|q: int| 0 <= q < n ==> (#[trigger] idx[q]) < n,
                idx.no_duplicates(),
                region_test_ok(*region_test),
                accepts_ok(*accepts),
                overlap_test_ok(*overlap_test),
                leaf_bounds@.len() >= n,
                region_prunes_soundly(nodes, idx, *region_test, leaf_bounds@),
                forall|k: int| 0 <= k < stack@.len() ==> (#[trigger] stack@[k]) < nodes.len(),
                forall|k1: int, k2: int|
                    0 <= k1 < k2 < stack@.len() ==> covers(nodes, #[trigger] stack@[k1] as int).disjoint(
                        covers(nodes, #[trigger] stack@[k2] as int),
                    ),
                forall|h: Overlap<Id>|
                    #![trigger out@.contains(h)]
                    #![trigger overlap_candidate(*accepts, *region_test, leaf_bounds@, *overlap_test, n, h)]
                    out@.contains(h) <==> (overlap_candidate(*accepts, *region_test, leaf_bounds@, *overlap_test, n, h)
                        && seen(idx, pending(nodes, stack@), 0, 0, h.leaf)),
                forall|i: int, j: int|
                    0 <= i < j < out@.len() ==> (#[trigger] out@[i]).leaf != (#[trigger] out@[j]).leaf,
            decreases weight(nodes, stack@),
        {
            let ghost s0 = stack@;
            let ni = stack.pop().unwrap();
            let ghost rest = stack@;
            proof {
                assert(s0.drop_last() =~= rest);
                assert(pending(nodes, s0) == pending(nodes, rest).union(covers(nodes, ni as int)));
                assert(node_ok(nodes, n as int, ni as int));
                lemma_covers_in_range(nodes, n as int, ni as int);
                assert forall|k: int| 0 <= k < rest.len() implies covers(nodes, ni as int).disjoint(
                    covers(nodes, #[trigger] rest[k] as int),
                ) by {
                    assert(rest[k] == s0[k]);
                    assert(s0[s0.len() - 1] == ni);
                }
                lemma_pending_disjoint(nodes, rest, covers(nodes, ni as int));
            }
            let node = nodes_v[ni as usize];
            if !region_test(node.bounds) {
                proof {
                    assert forall|h: Overlap<Id>|
                        out@.contains(h) <==> (#[trigger] overlap_candidate(*accepts, *region_test, leaf_bounds@, *overlap_test, n, h) && seen(idx, pending(nodes, stack@), 0, 0, h.leaf)) by {
                        if overlap_candidate(*accepts, *region_test, leaf_bounds@, *overlap_test, n, h) && seen(
                            idx,
                            pending(nodes, stack@),
                            0,
                            0,
                            h.leaf,
                        ) {
                            let q = choose|q: int|
                                0 <= q < idx.len() && #[trigger] idx[q] == h.leaf && !pending(
                                    nodes,
                                    stack@,
                                ).contains(q) && !(0 <= q < 0);
                            if covers(nodes, ni as int).contains(q) {
                                assert(region_test.ensures((leaf_bounds@[idx[q] as int],), true));
                            } else {
                                assert(seen(idx, pending(nodes, s0), 0, 0, h.leaf));
                            }
                        }
                        if out@.contains(h) {
                            let q = choose|q: int|
                                0 <= q < idx.len() && #[trigger] idx[q] == h.leaf && !pending(
                                    nodes,
                                    s0,
                                ).contains(q) && !(0 <= q < 0);
                            assert(seen(idx, pending(nodes, stack@), 0, 0, h.leaf));
                        }
                    }
                }
                continue;
            }
            if node.prim_count > 0 {
                let start = node.child_a as usize;
                let end = start + node.prim_count as usize;
                proof {
                    assert(covers(nodes, ni as int) == range_set(start as int, end as int));
                    assert forall|h: Overlap<Id>|
                        out@.contains(h) <==> (#[trigger] overlap_candidate(*accepts, *region_test, leaf_bounds@, *overlap_test, n, h) && seen(idx, pending(nodes, rest), start as int, end as int, h.leaf)) by {
                        if out@.contains(h) {
                            let q = choose|q: int|
                                0 <= q < idx.len() && #[trigger] idx[q] == h.leaf && !pending(
                                    nodes,
                                    s0,
                                ).contains(q) && !(0 <= q < 0);
                            assert(seen(idx, pending(nodes, rest), start as int, end as int, h.leaf));
                        }
                        if overlap_candidate(*accepts, *region_test, leaf_bounds@, *overlap_test, n, h) && seen(
                            idx,
                            pending(nodes, rest),
                            start as int,
                            end as int,
                            h.leaf,
                        ) {
                            let q = choose|q: int|
                                0 <= q < idx.len() && #[trigger] idx[q] == h.leaf && !pending(
                                    nodes,
                                    rest,
                                ).contains(q) && !(start <= q < end);
                            assert(seen(idx, pending(nodes, s0), 0, 0, h.leaf));
                        }
                    }
                }
                let mut k = start;
                while k < end
                    invariant
                        start <= k <= end <= n,
                        covers(nodes, ni as int) == range_set(start as int, end as int),
                        covers(nodes, ni as int).disjoint(pending(nodes, rest)),
                        rest == stack@,
                        idx == idx_v@,
                        n == idx.len(),
                        forall|q: int| 0 <= q < n ==> (#[trigger] idx[q]) < n,
                        idx.no_duplicates(),
                        leaf_bounds@.len() >= n,
                        region_test_ok(*region_test),
                        accepts_ok(*accepts),
                        overlap_test_ok(*overlap_test),
                        forall|h: Overlap<Id>|
                            #![trigger out@.contains(h)]
                            #![trigger overlap_candidate(*accepts, *region_test, leaf_bounds@, *overlap_test, n, h)]
                            out@.contains(h) <==> (overlap_candidate(*accepts, *region_test, leaf_bounds@, *overlap_test, n, h)
                                && seen(idx, pending(nodes, rest), k as int, end as int, h.leaf)),
                        forall|i: int, j: int|
                            0 <= i < j < out@.len() ==> (#[trigger] out@[i]).leaf != (
                            #[trigger] out@[j]).leaf,
                    decreases end - k,
                {
                    let ghost old_hits = out@;
                    let leaf = idx_v[k] as usize;
                    proof {
                        assert(!pending(nodes, rest).contains(k as int));
                        // The only position holding `leaf` is `k`.
                        assert forall|q: int| 0 <= q < n && #[trigger] idx[q] == leaf implies q == k by {}
                    }
                    let acc = accepts(leaf);
                    let ghost mut newh: Option<Overlap<Id>> = None;
                    let inside = acc && region_test(leaf_bounds[leaf]);
                    if inside {
                        match overlap_test(leaf) {
                            Some(id) => {
                                let o = Overlap { id, leaf };
                                out.push(o);
                                proof {
                                    newh = Some(o);
                                }
                            },
                            None => {},
                        }
                    } else {
                        proof {
                            assert forall|h: Overlap<Id>|
                                !(#[trigger] overlap_candidate(*accepts, *region_test, leaf_bounds@, *overlap_test, n, h) && h.leaf
                                    == leaf) by {
                                if overlap_candidate(*accepts, *region_test, leaf_bounds@, *overlap_test, n, h) && h.leaf == leaf {
                                    if !acc {
                                        assert(accepts.ensures((leaf,), false));
                                    } else {
                                        assert(region_test.ensures((leaf_bounds@[leaf as int],), false));
                                    }
                                }
                            }
                        }
                    }
                    proof {
                        assert forall|h: Overlap<Id>|
                            (#[trigger] overlap_candidate(*accepts, *region_test, leaf_bounds@, *overlap_test, n, h) && h.leaf == leaf)
                                <==> newh == Some(h) by {}
                        assert(out@ == (match newh {
                            Some(x) => old_hits.push(x),
                            None => old_hits,
                        }));
                        assert forall|h: Overlap<Id>|
                            out@.contains(h) <==> (#[trigger] overlap_candidate(*accepts, *region_test, leaf_bounds@, *overlap_test, n, h) && seen(idx, pending(nodes, rest), k + 1, end as int, h.leaf)) by {
                            if old_hits.contains(h) && h.leaf == leaf {
                                let q = choose|q: int|
                                    0 <= q < idx.len() && #[trigger] idx[q] == h.leaf && !pending(
                                        nodes,
                                        rest,
                                    ).contains(q) && !(k <= q < end);
                                assert(false);
                            }
                            if out@.contains(h) {
                                let i = choose|i: int| 0 <= i < out@.len() && out@[i] == h;
                                if i < old_hits.len() {
                                    assert(old_hits[i] == h);
                                    assert(old_hits.contains(h));
                                }
                            }
                            if old_hits.contains(h) {
                                let i = choose|i: int| 0 <= i < old_hits.len() && old_hits[i] == h;
                                assert(out@[i] == h);
                            }
                            if newh == Some(h) {
                                assert(out@[out@.len() - 1] == h);
                            }
                            if h.leaf == leaf {
                                if overlap_candidate(*accepts, *region_test, leaf_bounds@, *overlap_test, n, h) {
                                    assert(idx[k as int] == leaf);
                                    assert(seen(idx, pending(nodes, rest), k + 1, end as int, h.leaf));
                                }
                            } else {
                                if seen(idx, pending(nodes, rest), k + 1, end as int, h.leaf) {
                                    let q = choose|q: int|
                                        0 <= q < idx.len() && #[trigger] idx[q] == h.leaf && !pending(
                                            nodes,
                                            rest,
                                        ).contains(q) && !(k + 1 <= q < end);
                                    assert(q != k);
                                    assert(seen(idx, pending(nodes, rest), k as int, end as int, h.leaf));
                                }
                                if seen(idx, pending(nodes, rest), k as int, end as int, h.leaf) {
                                    let q = choose|q: int|
                                        0 <= q < idx.len() && #[trigger] idx[q] == h.leaf && !pending(
                                            nodes,
                                            rest,
                                        ).contains(q) && !(k <= q < end);
                                    assert(seen(idx, pending(nodes, rest), k + 1, end as int, h.leaf));
                                }
                            }
                        }
                        assert forall|i: int, j: int|
                            0 <= i < j < out@.len() implies (#[trigger] out@[i]).leaf != (
                            #[trigger] out@[j]).leaf by {
                            if j >= old_hits.len() {
                                let hi = out@[i];
                                assert(old_hits[i] == hi);
                                assert(old_hits.contains(hi));
                                let q = choose|q: int|
                                    0 <= q < idx.len() && #[trigger] idx[q] == hi.leaf && !pending(
                                        nodes,
                                        rest,
                                    ).contains(q) && !(k <= q < end);
                            } else {
                                assert(out@[i] == old_hits[i]);
                                assert(out@[j] == old_hits[j]);
                            }
                        }
                    }
                    k = k + 1;
                }
                proof {
                    assert forall|h: Overlap<Id>|
                        out@.contains(h) <==> (#[trigger] overlap_candidate(*accepts, *region_test, leaf_bounds@, *overlap_test, n, h) && seen(idx, pending(nodes, stack@), 0, 0, h.leaf)) by {
                        if seen(idx, pending(nodes, stack@), 0, 0, h.leaf) {
                            let q = choose|q: int|
                                0 <= q < idx.len() && #[trigger] idx[q] == h.leaf && !pending(
                                    nodes,
                                    stack@,
                                ).contains(q) && !(0 <= q < 0);
                            assert(seen(idx, pending(nodes, rest), end as int, end as int, h.leaf));
                        }
                        if seen(idx, pending(nodes, rest), end as int, end as int, h.leaf) {
                            let q = choose|q: int|
                                0 <= q < idx.len() && #[trigger] idx[q] == h.leaf && !pending(
                                    nodes,
                                    rest,
                                ).contains(q) && !(end <= q < end);
                            assert(seen(idx, pending(nodes, stack@), 0, 0, h.leaf));
                        }
                    }
                }
            } else {
                stack.push(node.child_a);
                stack.push(node.child_b);
                proof {
                    let s2 = stack@;
                    assert(s2.drop_last().drop_last() =~= rest);
                    assert(s2.drop_last().last() == node.child_a);
                    assert(s2.last() == node.child_b);
                    assert(pending(nodes, s2.drop_last()) == pending(nodes, rest).union(
                        covers(nodes, node.child_a as int),
                    ));
                    assert(pending(nodes, s2) == pending(nodes, s2.drop_last()).union(
                        covers(nodes, node.child_b as int),
                    ));
                    assert(covers(nodes, ni as int) == covers(nodes, node.child_a as int).union(
                        covers(nodes, node.child_b as int),
                    ));
                    assert(pending(nodes, s2) =~= pending(nodes, s0));
                    assert(weight(nodes, s2.drop_last()) == weight(nodes, rest) + size(
                        nodes,
                        node.child_a as int,
                    ));
                    assert(size(nodes, ni as int) == 1 + size(nodes, node.child_a as int) + size(
                        nodes,
                        node.child_b as int,
                    ));
                    assert(weight(nodes, s2) < weight(nodes, s0));
                    assert forall|k1: int, k2: int|
                        0 <= k1 < k2 < s2.len() implies covers(nodes, #[trigger] s2[k1] as int).disjoint(
                            covers(nodes, #[trigger] s2[k2] as int),
                        ) by {
                        if k2 >= rest.len() && k1 < rest.len() {
                            assert(s2[k1] == rest[k1]);
                            assert(rest[k1] == s0[k1]);
                            assert(covers(nodes, ni as int).disjoint(covers(nodes, rest[k1] as int)));
                        } else if k2 < rest.len() {
                            assert(s2[k1] == s0[k1]);
                            assert(s2[k2] == s0[k2]);
                        }
                    }
                }
            }
        }
        let ghost unsorted = out@;
        proof {
            assert(stack@ =~= Seq::<u32>::empty());
            assert forall|h: Overlap<Id>|
                unsorted.contains(h) <==> #[trigger] overlap_candidate(*accepts, *region_test, leaf_bounds@, *overlap_test, n, h) by {
                if overlap_candidate(*accepts, *region_test, leaf_bounds@, *overlap_test, n, h) {
                    assert(idx.contains(h.leaf as u32));
                    let q = choose|q: int| 0 <= q < idx.len() && idx[q] == h.leaf as u32;
                    assert(seen(idx, pending(nodes, stack@), 0, 0, h.leaf));
                }
            }
            assert forall|i: int, j: int|
                0 <= i < unsorted.len() && 0 <= j < unsorted.len() && i != j implies unsorted[i]
                != unsorted[j] by {
                if i < j {
                    assert(unsorted[i].leaf != unsorted[j].leaf);
                } else {
                    assert(unsorted[j].leaf != unsorted[i].leaf);
                }
            }
            assert(unsorted.no_duplicates());
        }
        sort_overlaps(&mut out);
        proof {
            let v = out@;
            lemma_no_dup_perm(unsorted, v);
            assert forall|h: Overlap<Id>| v.contains(h) <==> unsorted.contains(h) by {
                assert(v.to_multiset().count(h) == unsorted.to_multiset().count(h));
            }
            assert forall|i: int, j: int| 0 <= i < j < v.len() implies v[i].leaf < v[j].leaf by {
                assert(v.contains(v[i]));
                assert(v.contains(v[j]));
                assert(overlap_candidate(*accepts, *region_test, leaf_bounds@, *overlap_test, n, v[i]));
                assert(overlap_candidate(*accepts, *region_test, leaf_bounds@, *overlap_test, n, v[j]));
                if v[i].leaf == v[j].leaf {
                    assert(v[i].id == v[j].id);
                    assert(v.no_duplicates());
                    assert(v[i] != v[j]);
                }
            }
        }
        out
    }
}

} // verus!
