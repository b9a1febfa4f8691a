//! Laws of the query engine: what holds across queries, whichever structure
//! answers them.
use crate::hit::{hit_before, Hit, Overlap};
use crate::dispatch::{spec_select, BackendKind, BackendOffer};
use crate::order::{
    ieee_before32, ieee_before64, lemma_key32_is_ieee_total_order, lemma_key64_is_ieee_total_order,
    spec_key32, spec_key64,
};
use crate::probe::{
    is_all_hits, is_all_overlaps, is_nearest, leaf_test_ok, overlap_candidate,
    ray_candidate,
};
use crate::bvh::Bvh;
use crate::probe::accepts_ok;
use crate::tlas::Tlas;
use crate::traverse::{accepted_in, leaf_answer, leaf_pass, narrows, visits};
use crate::tree::{
    closed_from, covers, depth, hi_of, leaf_nodes_in, lemma_perm_facts, lemma_subtree_leaves,
    lemma_subtree_range, links_ok, lo_of, node_ok, prims_below, range_set, same_shape, size, split_node, split_tree, Node,
    Tree, LEAF_SIZE,
};
use vstd::prelude::*;

verus! {

/// The hit order is the order of the times of impact in the IEEE 754 total
/// order (`f32::total_cmp`), then of the leaf indices: a nearer hit comes
/// first, and of two at the same distance the lower leaf.
pub proof fn lemma_hit_order_is_toi_then_leaf<P>(a: Hit<P>, b: Hit<P>)
    ensures
        hit_before(a, b) <==> (ieee_before32(a.toi, b.toi) || (a.toi == b.toi && a.leaf < b.leaf)),
{
    lemma_key32_is_ieee_total_order(a.toi, b.toi);
    crate::order::lemma_key32_injective(a.toi, b.toi);
}

/// The hit order is a strict total order on hits of distinct leaves: no hit
/// precedes itself, precedence is transitive and one-way, and of two hits on
/// different leaves one precedes the other.
pub proof fn lemma_hit_order_strict_total<P>(a: Hit<P>, b: Hit<P>, c: Hit<P>)
    ensures
        !hit_before(a, a),
        hit_before(a, b) && hit_before(b, c) ==> hit_before(a, c),
        hit_before(a, b) ==> !hit_before(b, a),
        a.leaf != b.leaf ==> hit_before(a, b) || hit_before(b, a),
{
}

/// Two hits that are both candidates of the same query and neither precedes
/// the other are the same hit.
proof fn lemma_candidates_tie<P, AC: Fn(usize) -> bool, LT: Fn(usize, u32) -> Option<(u32, P)>>(
    ac: AC,
    lt: LT,
    n: nat,
    max_toi: u32,
    x: Hit<P>,
    y: Hit<P>,
)
    requires
        leaf_test_ok(lt),
        ray_candidate(ac, lt, n, max_toi, x),
        ray_candidate(ac, lt, n, max_toi, y),
        !hit_before(x, y),
        !hit_before(y, x),
    ensures
        x == y,
{
    let l1 = choose|l1: u32| #[trigger] lt.ensures((x.leaf, l1), Some((x.toi, x.payload)));
    let l2 = choose|l2: u32| #[trigger] lt.ensures((y.leaf, l2), Some((y.toi, y.payload)));
    assert((x.toi, x.payload) == (y.toi, y.payload));
}

/// Strictly sorted sequences with the same elements are equal, when elements
/// that neither precede the other are equal.
proof fn lemma_sorted_unique<P>(s1: Seq<Hit<P>>, s2: Seq<Hit<P>>)
    requires
        forall|i: int, j: int| 0 <= i < j < s1.len() ==> hit_before(s1[i], s1[j]),
        forall|i: int, j: int| 0 <= i < j < s2.len() ==> hit_before(s2[i], s2[j]),
        forall|h: Hit<P>| s1.contains(h) <==> s2.contains(h),
        forall|x: Hit<P>, y: Hit<P>|
            s1.contains(x) && s1.contains(y) && !hit_before(x, y) && !hit_before(y, x) ==> x == y,
    ensures
        s1 == s2,
    decreases s1.len(),
{
    if s1.len() == 0 {
        if s2.len() > 0 {
            assert(s2.contains(s2[0]));
        }
        assert(s1 =~= s2);
    } else {
        assert(s1.contains(s1[0]));
        let j = choose|j: int| 0 <= j < s2.len() && s2[j] == s1[0];
        assert(s2.contains(s2[0]));
        let i = choose|i: int| 0 <= i < s1.len() && s1[i] == s2[0];
        if i > 0 && j > 0 {
            assert(hit_before(s1[0], s1[i]));
            assert(hit_before(s2[0], s2[j]));
        }
        if i == 0 {
            assert(s1[0] == s2[0]);
        } else {
            assert(j == 0);
            assert(s1[0] == s2[0]);
        }
        let t1 = s1.drop_first();
        let t2 = s2.drop_first();
        assert forall|h: Hit<P>| t1.contains(h) <==> t2.contains(h) by {
            if t1.contains(h) {
                let k = choose|k: int| 0 <= k < t1.len() && t1[k] == h;
                assert(s1[k + 1] == h);
                assert(hit_before(s1[0], h));
                assert(s2.contains(h));
                let m = choose|m: int| 0 <= m < s2.len() && s2[m] == h;
                assert(m != 0);
                assert(t2[m - 1] == h);
            }
            if t2.contains(h) {
                let k = choose|k: int| 0 <= k < t2.len() && t2[k] == h;
                assert(s2[k + 1] == h);
                assert(hit_before(s2[0], h));
                assert(s1.contains(h));
                let m = choose|m: int| 0 <= m < s1.len() && s1[m] == h;
                assert(m != 0);
                assert(t1[m - 1] == h);
            }
        }
        assert forall|x: Hit<P>, y: Hit<P>|
            t1.contains(x) && t1.contains(y) && !hit_before(x, y) && !hit_before(y, x) implies x
            == y by {
            let k1 = choose|k: int| 0 <= k < t1.len() && t1[k] == x;
            let k2 = choose|k: int| 0 <= k < t1.len() && t1[k] == y;
            assert(s1[k1 + 1] == x);
            assert(s1[k2 + 1] == y);
            assert(s1.contains(x));
            assert(s1.contains(y));
        }
        lemma_sorted_unique(t1, t2);
        assert(s1 =~= seq![s1[0]] + t1);
        assert(s2 =~= seq![s2[0]] + t2);
    }
}

/// The nearest hit is determined by the query alone: any two answers that
/// meet the nearest-hit contract (the accelerated tree's, the naive scan's)
/// are the same hit, or both none.
pub proof fn lemma_nearest_unique<P, AC: Fn(usize) -> bool, LT: Fn(usize, u32) -> Option<(u32, P)>>(
    ac: AC,
    lt: LT,
    n: nat,
    max_toi: u32,
    r1: Option<Hit<P>>,
    r2: Option<Hit<P>>,
)
    requires
        leaf_test_ok(lt),
        is_nearest(ac, lt, n, max_toi, r1),
        is_nearest(ac, lt, n, max_toi, r2),
    ensures
        r1 == r2,
{
    match (r1, r2) {
        (Some(a), Some(b)) => {
            assert(ray_candidate(ac, lt, n, max_toi, a));
            assert(ray_candidate(ac, lt, n, max_toi, b));
            lemma_candidates_tie(ac, lt, n, max_toi, a, b);
        },
        (Some(a), None) => {
            assert(ray_candidate(ac, lt, n, max_toi, a));
        },
        (None, Some(b)) => {
            assert(ray_candidate(ac, lt, n, max_toi, b));
        },
        (None, None) => {},
    }
}

/// All hits are determined by the query alone: any two answers that meet the
/// all-hits contract (the accelerated tree's, the naive scan's) are the same
/// sequence.
pub proof fn lemma_all_hits_unique<P, AC: Fn(usize) -> bool, LT: Fn(usize, u32) -> Option<(u32, P)>>(
    ac: AC,
    lt: LT,
    n: nat,
    max_toi: u32,
    s1: Seq<Hit<P>>,
    s2: Seq<Hit<P>>,
)
    requires
        leaf_test_ok(lt),
        is_all_hits(ac, lt, n, max_toi, s1),
        is_all_hits(ac, lt, n, max_toi, s2),
    ensures
        s1 == s2,
{
    assert forall|h: Hit<P>| s1.contains(h) <==> s2.contains(h) by {
        assert(s1.contains(h) <==> ray_candidate(ac, lt, n, max_toi, h));
        assert(s2.contains(h) <==> ray_candidate(ac, lt, n, max_toi, h));
    }
    assert forall|x: Hit<P>, y: Hit<P>|
        s1.contains(x) && s1.contains(y) && !hit_before(x, y) && !hit_before(y, x) implies x == y by {
        assert(ray_candidate(ac, lt, n, max_toi, x));
        assert(ray_candidate(ac, lt, n, max_toi, y));
        lemma_candidates_tie(ac, lt, n, max_toi, x, y);
    }
    lemma_sorted_unique(s1, s2);
}

/// The nearest hit is the first of all hits: nearest selection and all-hits
/// sorting go by the same order.
pub proof fn lemma_nearest_is_first_hit<P, AC: Fn(usize) -> bool, LT: Fn(usize, u32) -> Option<(u32, P)>>(
    ac: AC,
    lt: LT,
    n: nat,
    max_toi: u32,
    r: Option<Hit<P>>,
    s: Seq<Hit<P>>,
)
    requires
        leaf_test_ok(lt),
        is_nearest(ac, lt, n, max_toi, r),
        is_all_hits(ac, lt, n, max_toi, s),
    ensures
        r == (if s.len() == 0 {
            None
        } else {
            Some(s[0])
        }),
{
    match r {
        None => {
            if s.len() > 0 {
                assert(s.contains(s[0]));
                assert(ray_candidate(ac, lt, n, max_toi, s[0]));
            }
        },
        Some(b) => {
            assert(ray_candidate(ac, lt, n, max_toi, b));
            assert(s.contains(b));
            let k = choose|k: int| 0 <= k < s.len() && s[k] == b;
            assert(s.contains(s[0]));
            assert(ray_candidate(ac, lt, n, max_toi, s[0]));
            if k > 0 {
                assert(hit_before(s[0], s[k]));
            }
        },
    }
}

/// Overlap results are determined by the query alone: any two answers that
/// meet the overlap contract are the same sequence.
pub proof fn lemma_overlaps_unique<
    B,
    Id,
    AC: Fn(usize) -> bool,
    RT: Fn(B) -> bool,
    OT: Fn(usize) -> Option<Id>,
>(
    ac: AC,
    rt: RT,
    leaf_bounds: Seq<B>,
    ot: OT,
    n: nat,
    s1: Seq<Overlap<Id>>,
    s2: Seq<Overlap<Id>>,
)
    requires
        is_all_overlaps(ac, rt, leaf_bounds, ot, n, s1),
        is_all_overlaps(ac, rt, leaf_bounds, ot, n, s2),
    ensures
        s1 == s2,
{
    assert forall|o: Overlap<Id>| s1.contains(o) <==> s2.contains(o) by {
        assert(s1.contains(o) <==> overlap_candidate(ac, rt, leaf_bounds, ot, n, o));
        assert(s2.contains(o) <==> overlap_candidate(ac, rt, leaf_bounds, ot, n, o));
    }
    lemma_overlap_tails_equal(s1, s2);
}

/// Strictly leaf-ordered sequences with the same elements are equal.
proof fn lemma_overlap_tails_equal<Id>(s1: Seq<Overlap<Id>>, s2: Seq<Overlap<Id>>)
    requires
        forall|i: int, j: int| 0 <= i < j < s1.len() ==> s1[i].leaf < s1[j].leaf,
        forall|i: int, j: int| 0 <= i < j < s2.len() ==> s2[i].leaf < s2[j].leaf,
        forall|o: Overlap<Id>| s1.contains(o) <==> s2.contains(o),
    ensures
        s1 == s2,
    decreases s1.len(),
{
    if s1.len() == 0 {
        if s2.len() > 0 {
            assert(s2.contains(s2[0]));
        }
        assert(s1 =~= s2);
    } else {
        assert(s1.contains(s1[0]));
        assert(s2.contains(s2[0]));
        let j = choose|j: int| 0 <= j < s2.len() && s2[j] == s1[0];
        let i = choose|i: int| 0 <= i < s1.len() && s1[i] == s2[0];
        if i > 0 && j > 0 {
            assert(s1[0].leaf < s1[i].leaf);
            assert(s2[0].leaf < s2[j].leaf);
        }
        assert(s1[0] == s2[0]);
        let t1 = s1.drop_first();
        let t2 = s2.drop_first();
        assert forall|o: Overlap<Id>| t1.contains(o) <==> t2.contains(o) by {
            if t1.contains(o) {
                let k = choose|k: int| 0 <= k < t1.len() && t1[k] == o;
                assert(s1[k + 1] == o);
                assert(s2.contains(o));
                let m = choose|m: int| 0 <= m < s2.len() && s2[m] == o;
                assert(m != 0);
                assert(t2[m - 1] == o);
            }
            if t2.contains(o) {
                let k = choose|k: int| 0 <= k < t2.len() && t2[k] == o;
                assert(s2[k + 1] == o);
                assert(s1.contains(o));
                let m = choose|m: int| 0 <= m < s1.len() && s1[m] == o;
                assert(m != 0);
                assert(t1[m - 1] == o);
            }
        }
        lemma_overlap_tails_equal(t1, t2);
        assert(s1 =~= seq![s1[0]] + t1);
        assert(s2 =~= seq![s2[0]] + t2);
    }
}

/// A built tree indexes every primitive exactly once: its leaf order is a
/// permutation of `0..n`, and the root's leaves cover every position.
pub proof fn lemma_tree_indexes_each_prim_once<B: Copy>(t: Tree<B>)
    requires
        t.wf(),
    ensures
        t.index_seq().no_duplicates(),
        forall|q: int| 0 <= q < t.index_seq().len() ==> (#[trigger] t.index_seq()[q]) < t.index_seq().len(),
        forall|v: u32| v < t.index_seq().len() ==> #[trigger] t.index_seq().contains(v),
        t.node_seq().len() > 0 ==> covers(t.node_seq(), 0) == range_set(0, t.index_seq().len() as int),
{
    lemma_perm_facts(t.index_seq());
}

/// A built tree is a full binary tree: a non-empty one has exactly one more
/// leaf node than interior node, so at least one leaf and, past a single node,
/// fewer leaves than nodes; its depth is at least one and at most its node
/// count. An empty tree has no leaves and depth zero.
pub proof fn lemma_tree_is_full_binary<B: Copy>(t: Tree<B>)
    requires
        t.wf(),
    ensures
        t.node_seq().len() > 0 ==> 2 * leaf_nodes_in(t.node_seq(), 0, t.node_seq().len() as int)
            == t.node_seq().len() + 1,
        t.node_seq().len() > 0 ==> 1 <= depth(t.node_seq(), 0) <= t.node_seq().len(),
        t.node_seq().len() == 0 ==> leaf_nodes_in(t.node_seq(), 0, 0) == 0 && depth(t.node_seq(), 0)
            == 0,
{
    let nodes = t.node_seq();
    let n = t.index_seq().len() as int;
    if nodes.len() > 0 {
        lemma_subtree_leaves(nodes, n, 0);
        lemma_subtree_range(nodes, n, 0);
    }
}

/// Filters that split the leaves split the hits: when two acceptance tests
/// accept disjoint leaf sets whose union is what a third accepts, the third's
/// all-hits answer holds exactly the hits of the other two, and no hit is in
/// both of theirs.
pub proof fn lemma_filters_partition_hits<
    P,
    AC1: Fn(usize) -> bool,
    AC2: Fn(usize) -> bool,
    ACA: Fn(usize) -> bool,
    LT: Fn(usize, u32) -> Option<(u32, P)>,
>(
    ac1: AC1,
    ac2: AC2,
    ac_all: ACA,
    lt: LT,
    n: nat,
    max_toi: u32,
    s1: Seq<Hit<P>>,
    s2: Seq<Hit<P>>,
    s: Seq<Hit<P>>,
)
    requires
        accepts_ok(ac1),
        accepts_ok(ac2),
        accepts_ok(ac_all),
        forall|l: usize|
            #[trigger] ac_all.ensures((l,), true) <==> (ac1.ensures((l,), true) || ac2.ensures((l,), true)),
        forall|l: usize| !(#[trigger] ac1.ensures((l,), true) && #[trigger] ac2.ensures((l,), true)),
        is_all_hits(ac1, lt, n, max_toi, s1),
        is_all_hits(ac2, lt, n, max_toi, s2),
        is_all_hits(ac_all, lt, n, max_toi, s),
    ensures
        forall|h: Hit<P>| #[trigger] s.contains(h) <==> (s1.contains(h) || s2.contains(h)),
        forall|h: Hit<P>| !(#[trigger] s1.contains(h) && #[trigger] s2.contains(h)),
{
    assert forall|h: Hit<P>| #[trigger] s.contains(h) <==> (s1.contains(h) || s2.contains(h)) by {
        assert(s.contains(h) <==> ray_candidate(ac_all, lt, n, max_toi, h));
        assert(s1.contains(h) <==> ray_candidate(ac1, lt, n, max_toi, h));
        assert(s2.contains(h) <==> ray_candidate(ac2, lt, n, max_toi, h));
    }
    assert forall|h: Hit<P>| !(#[trigger] s1.contains(h) && #[trigger] s2.contains(h)) by {
        assert(s1.contains(h) <==> ray_candidate(ac1, lt, n, max_toi, h));
        assert(s2.contains(h) <==> ray_candidate(ac2, lt, n, max_toi, h));
    }
}

/// A refit tree answers as a rebuilt one: when a BVH is refit to the moved
/// bounds of the same leaves, it keeps its node count, and its nearest-hit and
/// all-hits answers equal those of a BVH built afresh over those bounds.
pub proof fn lemma_bvh_refit_answers_as_rebuild<
    B: Copy,
    U: Fn(B, B) -> B,
    P,
    AC: Fn(usize) -> bool,
    LT: Fn(usize, u32) -> Option<(u32, P)>,
>(
    before: Bvh<B>,
    refit: Bvh<B>,
    rebuilt: Bvh<B>,
    union: U,
    bounds: Seq<B>,
    empty: B,
    ac: AC,
    lt: LT,
    max_toi: u32,
    near_refit: Option<Hit<P>>,
    near_rebuilt: Option<Hit<P>>,
    all_refit: Seq<Hit<P>>,
    all_rebuilt: Seq<Hit<P>>,
)
    requires
        before.wf(),
        bounds.len() == before.leaf_total(),
        refit.wf(),
        same_shape(before.tree_view().node_seq(), refit.tree_view().node_seq()),
        refit.tree_view().index_seq() == before.tree_view().index_seq(),
        refit.tree_view().fitted(union, bounds, empty),
        rebuilt.wf(),
        rebuilt.leaf_total() == bounds.len(),
        leaf_test_ok(lt),
        is_nearest(ac, lt, refit.leaf_total(), max_toi, near_refit),
        is_nearest(ac, lt, rebuilt.leaf_total(), max_toi, near_rebuilt),
        is_all_hits(ac, lt, refit.leaf_total(), max_toi, all_refit),
        is_all_hits(ac, lt, rebuilt.leaf_total(), max_toi, all_rebuilt),
    ensures
        refit.tree_view().node_seq().len() == before.tree_view().node_seq().len(),
        refit.leaf_total() == rebuilt.leaf_total(),
        near_refit == near_rebuilt,
        all_refit == all_rebuilt,
{
    lemma_nearest_unique(ac, lt, refit.leaf_total(), max_toi, near_refit, near_rebuilt);
    lemma_all_hits_unique(ac, lt, refit.leaf_total(), max_toi, all_refit, all_rebuilt);
}

/// A refit instance tree answers as a rebuilt one: when a TLAS is refit after
/// the same instances moved, it keeps its node count, and its nearest-hit and
/// all-hits answers equal those of a TLAS built afresh over the new world
/// bounds.
pub proof fn lemma_tlas_refit_answers_as_rebuild<
    B: Copy,
    Q: Copy,
    P,
    AC: Fn(usize) -> bool,
    LT: Fn(usize, u32) -> Option<(u32, P)>,
>(
    before: Tlas<B, Q>,
    refit: Tlas<B, Q>,
    rebuilt: Tlas<B, Q>,
    ac: AC,
    lt: LT,
    max_toi: u32,
    near_refit: Option<Hit<P>>,
    near_rebuilt: Option<Hit<P>>,
    all_refit: Seq<Hit<P>>,
    all_rebuilt: Seq<Hit<P>>,
)
    requires
        before.wf(),
        refit.wf(),
        refit.instance_total() == before.instance_total(),
        same_shape(before.tree_view().node_seq(), refit.tree_view().node_seq()),
        refit.tree_view().index_seq() == before.tree_view().index_seq(),
        rebuilt.wf(),
        rebuilt.world_seq() == refit.world_seq(),
        leaf_test_ok(lt),
        is_nearest(ac, lt, refit.instance_total(), max_toi, near_refit),
        is_nearest(ac, lt, rebuilt.instance_total(), max_toi, near_rebuilt),
        is_all_hits(ac, lt, refit.instance_total(), max_toi, all_refit),
        is_all_hits(ac, lt, rebuilt.instance_total(), max_toi, all_rebuilt),
    ensures
        refit.tree_view().node_seq().len() == before.tree_view().node_seq().len(),
        near_refit == near_rebuilt,
        all_refit == all_rebuilt,
{
    lemma_nearest_unique(ac, lt, refit.instance_total(), max_toi, near_refit, near_rebuilt);
    lemma_all_hits_unique(ac, lt, refit.instance_total(), max_toi, all_refit, all_rebuilt);
}

/// Node `k` is a leaf whose range of index-array positions holds `q`.
pub open spec fn leaf_holds<B>(nodes: Seq<Node<B>>, k: int, q: int) -> bool {
    &&& 0 <= k < nodes.len()
    &&& nodes[k].prim_count > 0
    &&& nodes[k].child_a <= q < nodes[k].child_a + nodes[k].prim_count
}

/// Node `p` is an interior node with node `j` as one of its two children.
pub open spec fn parent_of<B>(nodes: Seq<Node<B>>, p: int, j: int) -> bool {
    &&& 0 <= p < nodes.len()
    &&& nodes[p].prim_count == 0
    &&& (nodes[p].child_a == j || nodes[p].child_b == j)
}

/// Some leaf's range holds position `q`.
pub open spec fn held_by_leaf<B>(nodes: Seq<Node<B>>, q: int) -> bool {
    exists|k: int| #[trigger] leaf_holds(nodes, k, q)
}

/// Node `j` is a child of some interior node among nodes `lo..hi`.
pub open spec fn has_parent_in<B>(nodes: Seq<Node<B>>, lo: int, hi: int, j: int) -> bool {
    exists|p: int| lo <= p < hi && #[trigger] parent_of(nodes, p, j)
}

/// The subtree at `i` occupies nodes `i..i + size(i)`: its interior nodes
/// link inside that range, its leaves hold exactly the positions it covers,
/// each position in one leaf only, and every node of it but `i` has a parent
/// inside it.
proof fn lemma_subtree_structure<B>(nodes: Seq<Node<B>>, n: int, i: int)
    requires
        0 <= i < nodes.len(),
        closed_from(nodes, n, i),
    ensures
        i + size(nodes, i) <= nodes.len(),
        forall|k: int|
            i <= k < i + size(nodes, i) && (#[trigger] nodes[k]).prim_count == 0 ==> {
                &&& k < nodes[k].child_a < i + size(nodes, i)
                &&& k < nodes[k].child_b < i + size(nodes, i)
            },
        forall|k: int, q: int|
            i <= k < i + size(nodes, i) && #[trigger] leaf_holds(nodes, k, q) ==> covers(
                nodes,
                i,
            ).contains(q),
        forall|q: int|
            #[trigger] covers(nodes, i).contains(q) ==> exists|k: int|
                i <= k < i + size(nodes, i) && #[trigger] leaf_holds(nodes, k, q),
        forall|k1: int, k2: int, q: int|
            i <= k1 < i + size(nodes, i) && i <= k2 < i + size(nodes, i) && #[trigger] leaf_holds(
                nodes,
                k1,
                q,
            ) && #[trigger] leaf_holds(nodes, k2, q) ==> k1 == k2,
        forall|j: int| i < j < i + size(nodes, i) ==> #[trigger] has_parent_in(nodes, i, i + size(nodes, i), j),
    decreases nodes.len() - i,
{
    lemma_subtree_range(nodes, n, i);
    assert(node_ok(nodes, n, i));
    let nd = nodes[i];
    if nd.prim_count > 0 {
        assert(size(nodes, i) == 1);
        assert forall|q: int| #[trigger] covers(nodes, i).contains(q) implies exists|k: int|
            i <= k < i + size(nodes, i) && #[trigger] leaf_holds(nodes, k, q) by {
            assert(leaf_holds(nodes, i, q));
        }
    } else {
        let a = nd.child_a as int;
        let b = nd.child_b as int;
        lemma_subtree_structure(nodes, n, a);
        lemma_subtree_structure(nodes, n, b);
        let sa = size(nodes, a);
        let sb = size(nodes, b);
        assert(a == i + 1);
        assert(b == a + sa);
        assert(size(nodes, i) == 1 + sa + sb);
        assert(sb >= 1);
        assert(covers(nodes, i) == covers(nodes, a).union(covers(nodes, b)));
        assert forall|q: int| #[trigger] covers(nodes, i).contains(q) implies exists|k: int|
            i <= k < i + size(nodes, i) && #[trigger] leaf_holds(nodes, k, q) by {
            if covers(nodes, a).contains(q) {
                let k = choose|k: int| a <= k < a + sa && #[trigger] leaf_holds(nodes, k, q);
                assert(leaf_holds(nodes, k, q));
            } else {
                assert(covers(nodes, b).contains(q));
                let k = choose|k: int| b <= k < b + sb && #[trigger] leaf_holds(nodes, k, q);
                assert(leaf_holds(nodes, k, q));
            }
        }
        assert forall|k1: int, k2: int, q: int|
            i <= k1 < i + size(nodes, i) && i <= k2 < i + size(nodes, i) && #[trigger] leaf_holds(
                nodes,
                k1,
                q,
            ) && #[trigger] leaf_holds(nodes, k2, q) implies k1 == k2 by {
            assert(k1 != i && k2 != i);
            if k1 < b && k2 >= b {
                assert(covers(nodes, a).contains(q));
                assert(covers(nodes, b).contains(q));
            } else if k1 >= b && k2 < b {
                assert(covers(nodes, b).contains(q));
                assert(covers(nodes, a).contains(q));
            }
        }
        assert forall|j: int| i < j < i + size(nodes, i) implies #[trigger] has_parent_in(nodes, i, i + size(nodes, i), j) by {
            if j == a || j == b {
                assert(parent_of(nodes, i, j));
            } else if j < b {
                assert(has_parent_in(nodes, a, a + sa, j));
                let p = choose|p: int| a <= p < a + sa && #[trigger] parent_of(nodes, p, j);
                assert(parent_of(nodes, p, j));
            } else {
                assert(has_parent_in(nodes, b, b + sb, j));
                let p = choose|p: int| b <= p < b + sb && #[trigger] parent_of(nodes, p, j);
                assert(parent_of(nodes, p, j));
            }
        }
    }
}

/// A built tree partitions its primitives among its leaves and is a proper
/// tree: each leaf's range lies in the index array and each interior node's
/// children follow it in the node array; every position of the index array
/// lies in the range of exactly one leaf; and every node but the root is a
/// child of exactly one interior node, the root of none.
pub proof fn lemma_tree_partitions_prims<B: Copy>(t: Tree<B>)
    requires
        t.wf(),
    ensures
        forall|k: int|
            0 <= k < t.node_seq().len() && (#[trigger] t.node_seq()[k]).prim_count > 0 ==> t.node_seq()[k].child_a
                + t.node_seq()[k].prim_count <= t.index_seq().len(),
        forall|k: int|
            0 <= k < t.node_seq().len() && (#[trigger] t.node_seq()[k]).prim_count == 0 ==> {
                &&& k < t.node_seq()[k].child_a < t.node_seq().len()
                &&& k < t.node_seq()[k].child_b < t.node_seq().len()
            },
        forall|q: int| 0 <= q < t.index_seq().len() ==> #[trigger] held_by_leaf(t.node_seq(), q),
        forall|k1: int, k2: int, q: int|
            #[trigger] leaf_holds(t.node_seq(), k1, q) && #[trigger] leaf_holds(t.node_seq(), k2, q)
                ==> k1 == k2,
        forall|j: int|
            0 < j < t.node_seq().len() ==> #[trigger] has_parent_in(t.node_seq(), 0, t.node_seq().len() as int, j),
        forall|j: int, p1: int, p2: int|
            #[trigger] parent_of(t.node_seq(), p1, j) && #[trigger] parent_of(t.node_seq(), p2, j)
                ==> p1 == p2,
        forall|p: int| !#[trigger] parent_of(t.node_seq(), p, 0),
{
    let nodes = t.node_seq();
    let n = t.index_seq().len() as int;
    assert(closed_from(nodes, n, 0));
    assert forall|k: int| 0 <= k < nodes.len() && (#[trigger] nodes[k]).prim_count > 0 implies nodes[k].child_a
        + nodes[k].prim_count <= n by {
        assert(node_ok(nodes, n, k));
    }
    assert forall|k: int| 0 <= k < nodes.len() && (#[trigger] nodes[k]).prim_count == 0 implies {
        &&& k < nodes[k].child_a < nodes.len()
        &&& k < nodes[k].child_b < nodes.len()
    } by {
        assert(node_ok(nodes, n, k));
    }
    if nodes.len() > 0 {
        lemma_subtree_structure(nodes, n, 0);
        assert(size(nodes, 0) == nodes.len());
        assert forall|q: int| 0 <= q < n implies #[trigger] held_by_leaf(nodes, q) by {
            assert(covers(nodes, 0).contains(q));
            let k = choose|k: int| 0 <= k < size(nodes, 0) && #[trigger] leaf_holds(nodes, k, q);
            assert(leaf_holds(nodes, k, q));
        }
        assert forall|j: int, p1: int, p2: int|
            #[trigger] parent_of(nodes, p1, j) && #[trigger] parent_of(nodes, p2, j) implies p1 == p2 by {
            if p1 < p2 {
                lemma_child_parent_unique(nodes, n, p1, p2, j);
            } else if p2 < p1 {
                lemma_child_parent_unique(nodes, n, p2, p1, j);
            }
        }
    }
}

/// A child of node `p1` is a child of no later node `p2`.
proof fn lemma_child_parent_unique<B>(nodes: Seq<Node<B>>, n: int, p1: int, p2: int, j: int)
    requires
        closed_from(nodes, n, 0),
        0 <= p1 < p2,
        parent_of(nodes, p1, j),
    ensures
        !parent_of(nodes, p2, j),
{
    if parent_of(nodes, p2, j) {
        assert(node_ok(nodes, n, p1));
        assert(node_ok(nodes, n, p2));
        let a = p1 + 1;
        assert(nodes[p1].child_a == a);
        if j != a {
            assert(j == nodes[p1].child_b);
            assert(j == a + size(nodes, a));
            lemma_subtree_structure(nodes, n, a);
            assert(a <= p2 < a + size(nodes, a));
            assert(nodes[p2].prim_count == 0);
        }
    }
}

/// `2` to the power `k`.
pub open spec fn two_to(k: nat) -> nat
    decreases k,
{
    if k == 0 {
        1
    } else {
        2 * two_to((k - 1) as nat)
    }
}

/// The number of times `m` is halved, rounding up, to reach one: the least
/// `k` with `m <= 2^k`, that is `ceil(log2(m))` (see
/// [`lemma_ceil_log2_bounds`]).
pub open spec fn ceil_log2(m: nat) -> nat
    decreases m,
{
    if m <= 1 {
        0
    } else {
        1 + ceil_log2(((m + 1) / 2) as nat)
    }
}

/// `ceil_log2(m)` is the least `k` with `m <= 2^k`.
pub proof fn lemma_ceil_log2_bounds(m: nat)
    requires
        m >= 1,
    ensures
        m <= two_to(ceil_log2(m)),
        m >= 2 ==> two_to((ceil_log2(m) - 1) as nat) < m,
    decreases m,
{
    if m >= 2 {
        let c = ((m + 1) / 2) as nat;
        lemma_ceil_log2_bounds(c);
        assert(ceil_log2(m) == 1 + ceil_log2(c));
        assert(two_to(ceil_log2(m)) == 2 * two_to(ceil_log2(c)));
        if c >= 2 {
            assert(two_to(ceil_log2(c)) == 2 * two_to((ceil_log2(c) - 1) as nat));
        } else {
            assert(ceil_log2(c) == 0);
        }
    }
}

/// Halving rounds up to no larger a count for a smaller number.
proof fn lemma_ceil_log2_monotone(x: nat, y: nat)
    requires
        x <= y,
    ensures
        ceil_log2(x) <= ceil_log2(y),
    decreases y,
{
    if x > 1 {
        lemma_ceil_log2_monotone(((x + 1) / 2) as nat, ((y + 1) / 2) as nat);
    }
}

/// A median-split subtree over `m` positions is at most `1 + ceil_log2(m)`
/// nodes deep.
proof fn lemma_split_depth<B, S: Fn(&Vec<u32>, usize, usize) -> Option<usize>>(
    nodes: Seq<Node<B>>,
    indices: Seq<u32>,
    keys: Seq<Vec<u32>>,
    split: S,
    i: int,
)
    requires
        0 <= i < nodes.len(),
        closed_from(nodes, indices.len() as int, i),
        split_tree(nodes, indices, keys, split),
    ensures
        hi_of(nodes, i) - lo_of(nodes, i) >= 1,
        depth(nodes, i) <= 1 + ceil_log2((hi_of(nodes, i) - lo_of(nodes, i)) as nat),
    decreases nodes.len() - i,
{
    let n = indices.len() as int;
    assert(node_ok(nodes, n, i));
    assert(split_node(nodes, indices, keys, split, i));
    let nd = nodes[i];
    if nd.prim_count == 0 {
        let a = nd.child_a as int;
        let b = nd.child_b as int;
        lemma_split_depth(nodes, indices, keys, split, a);
        lemma_split_depth(nodes, indices, keys, split, b);
        let s = lo_of(nodes, i);
        let e = hi_of(nodes, i);
        let m = (e - s) as nat;
        let mid = s + (e - s) / 2;
        assert(lo_of(nodes, a) == s);
        assert(hi_of(nodes, b) == e);
        assert(m > LEAF_SIZE);
        let lo_half = ((m / 2) as nat);
        let hi_half = (((m + 1) / 2) as nat);
        assert(hi_of(nodes, a) - lo_of(nodes, a) == lo_half);
        assert(hi_of(nodes, b) - lo_of(nodes, b) == hi_half);
        lemma_ceil_log2_monotone(lo_half, hi_half);
        assert(ceil_log2(m) == 1 + ceil_log2(hi_half));
    }
}

/// A median-split tree over `n >= 1` primitives is shallow: its longest path
/// from the root to a leaf has at most `1 + ceil(log2(n))` nodes.
pub proof fn lemma_built_tree_depth_bound<B: Copy, S: Fn(&Vec<u32>, usize, usize) -> Option<usize>>(
    t: Tree<B>,
    keys: Seq<Vec<u32>>,
    split: S,
)
    requires
        t.wf(),
        split_tree(t.node_seq(), t.index_seq(), keys, split),
        t.index_seq().len() >= 1,
    ensures
        depth(t.node_seq(), 0) <= 1 + ceil_log2(t.index_seq().len()),
{
    let nodes = t.node_seq();
    let n = t.index_seq().len() as int;
    assert(closed_from(nodes, n, 0));
    lemma_split_depth(nodes, t.index_seq(), keys, split, 0);
    assert(split_node(nodes, t.index_seq(), keys, split, 0));
    assert(covers(nodes, 0) == range_set(0, n));
    let s = lo_of(nodes, 0);
    let e = hi_of(nodes, 0);
    assert(covers(nodes, 0) == range_set(s, e));
    assert(range_set(s, e).contains(s));
    assert(range_set(0, n).contains(0));
    assert(range_set(0, n).contains(n - 1));
    assert(range_set(s, e).contains(e - 1));
    assert(s == 0) by {
        assert(range_set(0, n).contains(s));
        assert(range_set(s, e).contains(0));
    }
    assert(e == n) by {
        assert(range_set(0, n).contains(e - 1));
        assert(range_set(s, e).contains(n - 1));
    }
}

/// Dispatch picks the cheapest backend by cost: when each offer's key is the
/// total-order key of its `f64` cost, and some offer can serve a request that
/// neither forces a backend nor pins the CPU, the chosen backend is one that
/// can serve and whose cost no serving offer's cost comes before in the IEEE
/// 754 total order.
pub proof fn lemma_dispatch_picks_cheapest_cost(offers: Seq<BackendOffer>, costs: Seq<u64>, k: BackendKind)
    requires
        offers.len() == costs.len(),
        forall|i: int| 0 <= i < offers.len() ==> (#[trigger] offers[i]).cost_key == spec_key64(costs[i]),
        exists|i: int| 0 <= i < offers.len() && (#[trigger] offers[i]).can_serve,
        spec_select(None, false, offers, k),
    ensures
        exists|i: int|
            0 <= i < offers.len() && (#[trigger] offers[i]).can_serve && offers[i].kind == k && forall|j: int|
                0 <= j < offers.len() && offers[j].can_serve ==> !ieee_before64(costs[j], costs[i]),
{
    let i = choose|i: int| #[trigger] crate::dispatch::is_cheapest(offers, i) && k == offers[i].kind;
    assert forall|j: int| 0 <= j < offers.len() && offers[j].can_serve implies !ieee_before64(
        costs[j],
        costs[i],
    ) by {
        lemma_key64_is_ieee_total_order(costs[j], costs[i]);
        assert(offers[j].cost_key == spec_key64(costs[j]));
        assert(offers[i].cost_key == spec_key64(costs[i]));
    }
    assert(offers[i].can_serve);
}

/// Whether the acceptance test admits the primitive a position holds.
pub open spec fn admits<AC: Fn(usize) -> bool>(ac: AC) -> spec_fn(u32) -> bool {
    |p: u32| ac.ensures((p as usize,), true)
}

/// The number of primitives among positions `lo..hi` that `ac` admits: the
/// length of that stretch of the index array filtered by `ac`.
pub open spec fn admitted<AC: Fn(usize) -> bool>(indices: Seq<u32>, ac: AC, lo: int, hi: int) -> nat {
    indices.subrange(lo, hi).filter(admits(ac)).len()
}

/// Filtering a stretch splits off its first position.
proof fn lemma_admitted_step<AC: Fn(usize) -> bool>(indices: Seq<u32>, ac: AC, lo: int, hi: int)
    requires
        0 <= lo < hi <= indices.len(),
    ensures
        admitted(indices, ac, lo, hi) == (if ac.ensures((indices[lo] as usize,), true) {
            1nat
        } else {
            0nat
        }) + admitted(indices, ac, lo + 1, hi),
{
    let head = seq![indices[lo]];
    let tail = indices.subrange(lo + 1, hi);
    assert(indices.subrange(lo, hi) =~= head + tail);
    Seq::filter_distributes_over_add(head, tail, admits(ac));
    reveal_with_fuel(Seq::filter, 2);
    assert(head.drop_last() =~= Seq::<u32>::empty());
}

/// A passing leaf is charged one narrow test per primitive the acceptance
/// test admits, and none for a primitive it rejects.
pub proof fn lemma_accepted_in_counts_admitted<AC: Fn(usize) -> bool>(
    indices: Seq<u32>,
    ac: AC,
    lo: int,
    hi: int,
)
    requires
        0 <= lo <= hi <= indices.len(),
    ensures
        accepted_in(indices, ac, lo, hi) == admitted(indices, ac, lo, hi),
    decreases hi - lo,
{
    if lo < hi {
        lemma_accepted_in_counts_admitted(indices, ac, lo + 1, hi);
        lemma_admitted_step(indices, ac, lo, hi);
    } else {
        assert(indices.subrange(lo, hi) =~= Seq::<u32>::empty());
        reveal_with_fuel(Seq::filter, 1);
    }
}

/// The narrow tests an all-hits walk makes at a node: none when the node's
/// bounds fail the node test, and at a leaf whose bounds pass, exactly one
/// per primitive of the leaf that the acceptance test admits (none when it
/// rejects them all).
pub proof fn lemma_narrows_at_node<B: Copy, NT: Fn(B, u32) -> bool, AC: Fn(usize) -> bool>(
    t: Tree<B>,
    nt: NT,
    ac: AC,
    lim: u32,
    i: int,
)
    requires
        t.wf(),
        0 <= i < t.node_seq().len(),
    ensures
        !nt.ensures((t.node_seq()[i].bounds, lim), true) ==> narrows(t.node_seq(), t.index_seq(), nt, ac, lim, i) == 0,
        nt.ensures((t.node_seq()[i].bounds, lim), true) && t.node_seq()[i].prim_count > 0 ==> narrows(
            t.node_seq(),
            t.index_seq(),
            nt,
            ac,
            lim,
            i,
        ) == admitted(
            t.index_seq(),
            ac,
            t.node_seq()[i].child_a as int,
            t.node_seq()[i].child_a + t.node_seq()[i].prim_count,
        ),
{
    let nodes = t.node_seq();
    let nd = nodes[i];
    assert(node_ok(nodes, t.index_seq().len() as int, i));
    if nd.prim_count > 0 {
        lemma_accepted_in_counts_admitted(t.index_seq(), ac, nd.child_a as int, nd.child_a + nd.prim_count);
    }
}

/// A nearest walk's pass over a leaf makes exactly one narrow test per
/// primitive the acceptance test admits, whatever its limit and best hit,
/// and reports no more hits than narrow tests.
pub proof fn lemma_leaf_pass_counts<P, AC: Fn(usize) -> bool, LT: Fn(usize, u32) -> Option<(u32, P)>>(
    ac: AC,
    lt: LT,
    indices: Seq<u32>,
    k: int,
    end: int,
    best: Option<Hit<P>>,
    limit: u32,
    narrow: nat,
    found: nat,
)
    requires
        0 <= k <= end <= indices.len(),
    ensures
        leaf_pass(ac, lt, indices, k, end, best, limit, narrow, found).2 == narrow + admitted(indices, ac, k, end),
        leaf_pass(ac, lt, indices, k, end, best, limit, narrow, found).3 - found <= leaf_pass(
            ac,
            lt,
            indices,
            k,
            end,
            best,
            limit,
            narrow,
            found,
        ).2 - narrow,
        found <= leaf_pass(ac, lt, indices, k, end, best, limit, narrow, found).3,
    decreases end - k,
{
    if k < end {
        lemma_admitted_step(indices, ac, k, end);
        let leaf = indices[k] as usize;
        if !ac.ensures((leaf,), true) {
            lemma_leaf_pass_counts(ac, lt, indices, k + 1, end, best, limit, narrow, found);
        } else {
            match crate::traverse::leaf_answer(lt, leaf, limit) {
                Some(h) => {
                    let o = crate::traverse::offer(best, limit, Hit { leaf, toi: h.0, payload: h.1 });
                    lemma_leaf_pass_counts(ac, lt, indices, k + 1, end, o.0, o.1, narrow + 1, found + 1);
                },
                None => {
                    lemma_leaf_pass_counts(ac, lt, indices, k + 1, end, best, limit, narrow + 1, found);
                },
            }
        }
    } else {
        assert(indices.subrange(k, end) =~= Seq::<u32>::empty());
        reveal_with_fuel(Seq::filter, 1);
    }
}

/// Every primitive of a stretch that the acceptance test admits is counted:
/// when it admits them all, the count is the stretch's length.
pub proof fn lemma_admitted_all<AC: Fn(usize) -> bool>(indices: Seq<u32>, ac: AC, lo: int, hi: int)
    requires
        0 <= lo <= hi <= indices.len(),
    ensures
        admitted(indices, ac, lo, hi) <= hi - lo,
        (forall|q: int| lo <= q < hi ==> ac.ensures((#[trigger] indices[q] as usize,), true)) ==> admitted(
            indices,
            ac,
            lo,
            hi,
        ) == hi - lo,
    decreases hi - lo,
{
    if lo < hi {
        lemma_admitted_step(indices, ac, lo, hi);
        lemma_admitted_all(indices, ac, lo + 1, hi);
        if forall|q: int| lo <= q < hi ==> ac.ensures((#[trigger] indices[q] as usize,), true) {
            assert(ac.ensures((indices[lo] as usize,), true));
        }
    } else {
        assert(indices.subrange(lo, hi) =~= Seq::<u32>::empty());
        reveal_with_fuel(Seq::filter, 1);
    }
}

/// An all-hits walk visits the subtree's root and at most every node of the
/// subtree: only the root when its bounds fail, and every node when every
/// node's bounds pass.
pub proof fn lemma_visits_between_root_and_subtree<B, NT: Fn(B, u32) -> bool>(
    nodes: Seq<Node<B>>,
    n: int,
    nt: NT,
    lim: u32,
    i: int,
)
    requires
        0 <= i < nodes.len(),
        closed_from(nodes, n, i),
    ensures
        1 <= visits(nodes, nt, lim, i) <= size(nodes, i),
        !nt.ensures((nodes[i].bounds, lim), true) ==> visits(nodes, nt, lim, i) == 1,
        (forall|k: int| 0 <= k < nodes.len() ==> nt.ensures((#[trigger] nodes[k].bounds, lim), true))
            ==> visits(nodes, nt, lim, i) == size(nodes, i),
    decreases nodes.len() - i,
{
    assert(node_ok(nodes, n, i));
    let nd = nodes[i];
    if nd.prim_count == 0 {
        assert(links_ok(nodes, i));
        lemma_visits_between_root_and_subtree(nodes, n, nt, lim, nd.child_a as int);
        lemma_visits_between_root_and_subtree(nodes, n, nt, lim, nd.child_b as int);
    }
}

/// An all-hits walk makes at most one narrow test per primitive below a
/// node, and exactly one per primitive when every node's bounds pass and the
/// acceptance test admits every primitive.
pub proof fn lemma_narrows_between_none_and_all<B, NT: Fn(B, u32) -> bool, AC: Fn(usize) -> bool>(
    nodes: Seq<Node<B>>,
    indices: Seq<u32>,
    nt: NT,
    ac: AC,
    lim: u32,
    i: int,
)
    requires
        0 <= i < nodes.len(),
        closed_from(nodes, indices.len() as int, i),
    ensures
        narrows(nodes, indices, nt, ac, lim, i) <= prims_below(nodes, i),
        (forall|k: int| 0 <= k < nodes.len() ==> nt.ensures((#[trigger] nodes[k].bounds, lim), true)) && (
        forall|q: int| 0 <= q < indices.len() ==> ac.ensures((#[trigger] indices[q] as usize,), true))
            ==> narrows(nodes, indices, nt, ac, lim, i) == prims_below(nodes, i),
    decreases nodes.len() - i,
{
    let n = indices.len() as int;
    assert(node_ok(nodes, n, i));
    let nd = nodes[i];
    if nd.prim_count > 0 {
        lemma_accepted_in_counts_admitted(indices, ac, nd.child_a as int, nd.child_a + nd.prim_count);
        lemma_admitted_all(indices, ac, nd.child_a as int, nd.child_a + nd.prim_count);
    } else {
        assert(links_ok(nodes, i));
        lemma_narrows_between_none_and_all(nodes, indices, nt, ac, lim, nd.child_a as int);
        lemma_narrows_between_none_and_all(nodes, indices, nt, ac, lim, nd.child_b as int);
    }
}

/// When every admitted primitive of a leaf reports a hit at any limit, a
/// nearest walk's pass over it counts one hit per narrow test, whether or not
/// the hit improves on the best one.
pub proof fn lemma_leaf_pass_counts_every_hit<P, AC: Fn(usize) -> bool, LT: Fn(usize, u32) -> Option<(u32, P)>>(
    ac: AC,
    lt: LT,
    indices: Seq<u32>,
    k: int,
    end: int,
    best: Option<Hit<P>>,
    limit: u32,
    narrow: nat,
    found: nat,
)
    requires
        0 <= k <= end <= indices.len(),
        forall|q: int, lim: u32|
            k <= q < end && ac.ensures((indices[q] as usize,), true) ==> (#[trigger] leaf_answer(
                lt,
                indices[q] as usize,
                lim,
            )) is Some,
    ensures
        leaf_pass(ac, lt, indices, k, end, best, limit, narrow, found).3 - found == leaf_pass(
            ac,
            lt,
            indices,
            k,
            end,
            best,
            limit,
            narrow,
            found,
        ).2 - narrow,
    decreases end - k,
{
    if k < end {
        let leaf = indices[k] as usize;
        if !ac.ensures((leaf,), true) {
            lemma_leaf_pass_counts_every_hit(ac, lt, indices, k + 1, end, best, limit, narrow, found);
        } else {
            assert(leaf_answer(lt, indices[k] as usize, limit) is Some);
            match leaf_answer(lt, leaf, limit) {
                Some(h) => {
                    let o = crate::traverse::offer(best, limit, Hit { leaf, toi: h.0, payload: h.1 });
                    lemma_leaf_pass_counts_every_hit(ac, lt, indices, k + 1, end, o.0, o.1, narrow + 1, found + 1);
                },
                None => {},
            }
        }
    }
}

} // verus!
