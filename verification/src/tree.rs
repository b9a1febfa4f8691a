//! Flat BVH node storage, the top-down median-split builder and the
//! bottom-up refit, shared by the single-level `Bvh` and the two-level `Tlas`.
//!
//! The tree is generic over its bounding-volume type `B`: the topology (child
//! links, leaf ranges into the primitive index array) is what this module
//! builds and proves things about, while the bounds themselves are combined by
//! a caller-supplied union.
use crate::stats::{heap_bytes, saturating_product, TreeStats};
use vstd::prelude::*;

verus! {

broadcast use vstd::seq_lib::group_to_multiset_ensures;

/// Maximum primitives in a node before the builder tries to split it.
pub const LEAF_SIZE: usize = 4;

/// A flat BVH node.
///
/// A leaf has `prim_count > 0` and `child_a` indexes the first of `prim_count`
/// contiguous entries in the tree's index array. An interior node has
/// `prim_count == 0` and children at node indices `child_a` and `child_b`.
#[derive(Clone, Copy, Debug)]
pub struct Node<B> {
    pub bounds: B,
    pub child_a: u32,
    pub child_b: u32,
    pub prim_count: u32,
}

impl<B> Node<B> {
    /// Whether this node is a leaf.
    pub fn is_leaf(&self) -> (r: bool)
        ensures
            r == (self.prim_count > 0),
    {
        self.prim_count > 0
    }
}

/// The integers `lo..hi` as a set.
pub open spec fn range_set(lo: int, hi: int) -> Set<int> {
    Set::new(|q: int| lo <= q < hi)
}

/// The identity permutation `0..n` as a sequence of `u32`.
pub open spec fn ident(n: nat) -> Seq<u32> {
    Seq::new(n, |i: int| i as u32)
}

/// Whether node `i` links to two children with higher indices inside `nodes`.
pub open spec fn links_ok<B>(nodes: Seq<Node<B>>, i: int) -> bool {
    &&& i < nodes[i].child_a < nodes.len()
    &&& i < nodes[i].child_b < nodes.len()
}

/// The positions in the index array that the leaves below node `i` cover.
pub open spec fn covers<B>(nodes: Seq<Node<B>>, i: int) -> Set<int>
    decreases nodes.len() - i,
{
    if 0 <= i < nodes.len() {
        let nd = nodes[i];
        if nd.prim_count > 0 {
            range_set(nd.child_a as int, nd.child_a + nd.prim_count)
        } else if links_ok(nodes, i) {
            covers(nodes, nd.child_a as int).union(covers(nodes, nd.child_b as int))
        } else {
            Set::empty()
        }
    } else {
        Set::empty()
    }
}

/// The number of nodes in the subtree rooted at node `i`.
pub open spec fn size<B>(nodes: Seq<Node<B>>, i: int) -> nat
    decreases nodes.len() - i,
{
    if 0 <= i < nodes.len() {
        let nd = nodes[i];
        if nd.prim_count > 0 {
            1
        } else if links_ok(nodes, i) {
            1 + size(nodes, nd.child_a as int) + size(nodes, nd.child_b as int)
        } else {
            1
        }
    } else {
        0
    }
}

/// The number of primitives the leaves below node `i` hold.
pub open spec fn prims_below<B>(nodes: Seq<Node<B>>, i: int) -> nat
    decreases nodes.len() - i,
{
    if 0 <= i < nodes.len() {
        let nd = nodes[i];
        if nd.prim_count > 0 {
            nd.prim_count as nat
        } else if links_ok(nodes, i) {
            prims_below(nodes, nd.child_a as int) + prims_below(nodes, nd.child_b as int)
        } else {
            0
        }
    } else {
        0
    }
}

/// The number of nodes on the longest path from node `i` down to a leaf.
pub open spec fn depth<B>(nodes: Seq<Node<B>>, i: int) -> nat
    decreases nodes.len() - i,
{
    if 0 <= i < nodes.len() {
        let nd = nodes[i];
        if nd.prim_count > 0 {
            1
        } else if links_ok(nodes, i) {
            let da = depth(nodes, nd.child_a as int);
            let db = depth(nodes, nd.child_b as int);
            1 + if da >= db {
                da
            } else {
                db
            }
        } else {
            1
        }
    } else {
        0
    }
}

/// The first index-array position the leaves below node `i` hold.
pub open spec fn lo_of<B>(nodes: Seq<Node<B>>, i: int) -> int
    decreases nodes.len() - i,
{
    if 0 <= i < nodes.len() {
        let nd = nodes[i];
        if nd.prim_count > 0 {
            nd.child_a as int
        } else if links_ok(nodes, i) {
            lo_of(nodes, nd.child_a as int)
        } else {
            0
        }
    } else {
        0
    }
}

/// One past the last index-array position the leaves below node `i` hold.
pub open spec fn hi_of<B>(nodes: Seq<Node<B>>, i: int) -> int
    decreases nodes.len() - i,
{
    if 0 <= i < nodes.len() {
        let nd = nodes[i];
        if nd.prim_count > 0 {
            nd.child_a + nd.prim_count
        } else if links_ok(nodes, i) {
            hi_of(nodes, nd.child_b as int)
        } else {
            0
        }
    } else {
        0
    }
}

/// Node `i` is well formed over an index array of length `n`: a leaf's range
/// lies inside the array; an interior node's first child follows it directly,
/// its second child follows the first child's subtree, and the two cover
/// disjoint positions.
pub open spec fn node_ok<B>(nodes: Seq<Node<B>>, n: int, i: int) -> bool {
    let nd = nodes[i];
    if nd.prim_count > 0 {
        nd.child_a + nd.prim_count <= n
    } else {
        &&& links_ok(nodes, i)
        &&& nd.child_a == i + 1
        &&& nd.child_b == i + 1 + size(nodes, i + 1)
        &&& covers(nodes, nd.child_a as int).disjoint(covers(nodes, nd.child_b as int))
    }
}

/// The tree invariant: every node is well formed, the index array is a
/// permutation of `0..n`, and the root covers every position exactly once.
pub open spec fn tree_wf<B>(nodes: Seq<Node<B>>, indices: Seq<u32>) -> bool {
    &&& indices.len() <= u32::MAX
    &&& indices.to_multiset() == ident(indices.len()).to_multiset()
    &&& (nodes.len() == 0) == (indices.len() == 0)
    &&& nodes.len() <= indices.len()
    &&& forall|i: int| 0 <= i < nodes.len() ==> #[trigger] node_ok(nodes, indices.len() as int, i)
    &&& nodes.len() > 0 ==> covers(nodes, 0) == range_set(0, indices.len() as int)
    &&& nodes.len() > 0 ==> size(nodes, 0) == nodes.len()
    &&& nodes.len() > 0 ==> prims_below(nodes, 0) == indices.len()
}

/// Every node at or after `j` is well formed (so links stay inside `[j, len)`).
pub open spec fn closed_from<B>(nodes: Seq<Node<B>>, n: int, j: int) -> bool {
    forall|k: int| j <= k < nodes.len() ==> #[trigger] node_ok(nodes, n, k)
}

/// `s2` agrees with `s1` on `[j, s1.len())`.
pub open spec fn agree_from<B>(s1: Seq<Node<B>>, s2: Seq<Node<B>>, j: int) -> bool {
    &&& s1.len() <= s2.len()
    &&& forall|k: int| j <= k < s1.len() ==> s2[k] == s1[k]
}

/// Coverage and size of a closed subtree do not change when the node array is
/// extended or modified elsewhere.
pub proof fn lemma_covers_stable<B>(s1: Seq<Node<B>>, s2: Seq<Node<B>>, n: int, j: int)
    requires
        0 <= j < s1.len(),
        closed_from(s1, n, j),
        agree_from(s1, s2, j),
    ensures
        covers(s1, j) == covers(s2, j),
        size(s1, j) == size(s2, j),
        prims_below(s1, j) == prims_below(s2, j),
        depth(s1, j) == depth(s2, j),
        lo_of(s1, j) == lo_of(s2, j),
        hi_of(s1, j) == hi_of(s2, j),
    decreases s1.len() - j,
{
    assert(node_ok(s1, n, j));
    let nd = s1[j];
    assert(s2[j] == nd);
    if nd.prim_count == 0 {
        lemma_covers_stable(s1, s2, n, nd.child_a as int);
        lemma_covers_stable(s1, s2, n, nd.child_b as int);
    }
}

/// Well-formedness of a closed node survives extension of the array.
pub proof fn lemma_node_ok_stable<B>(s1: Seq<Node<B>>, s2: Seq<Node<B>>, n: int, j: int, k: int)
    requires
        0 <= j <= k < s1.len(),
        closed_from(s1, n, j),
        agree_from(s1, s2, j),
    ensures
        node_ok(s2, n, k),
{
    assert(node_ok(s1, n, k));
    if s1[k].prim_count == 0 {
        lemma_covers_stable(s1, s2, n, s1[k].child_a as int);
        lemma_covers_stable(s1, s2, n, s1[k].child_b as int);
    }
}

/// Every position a well-formed subtree covers lies inside the index array.
pub proof fn lemma_covers_in_range<B>(nodes: Seq<Node<B>>, n: int, i: int)
    requires
        0 <= i < nodes.len(),
        closed_from(nodes, n, i),
    ensures
        forall|q: int| covers(nodes, i).contains(q) ==> 0 <= q < n,
    decreases nodes.len() - i,
{
    assert(node_ok(nodes, n, i));
    let nd = nodes[i];
    if nd.prim_count == 0 {
        lemma_covers_in_range(nodes, n, nd.child_a as int);
        lemma_covers_in_range(nodes, n, nd.child_b as int);
    }
}

/// A permutation of `0..n`: every entry is below `n`, no entry repeats, and
/// every value below `n` occurs.
pub proof fn lemma_perm_facts(s: Seq<u32>)
    requires
        s.len() <= u32::MAX,
        s.to_multiset() == ident(s.len()).to_multiset(),
    ensures
        forall|q: int| 0 <= q < s.len() ==> (#[trigger] s[q]) < s.len(),
        s.no_duplicates(),
        forall|v: u32| v < s.len() ==> #[trigger] s.contains(v),
{
    let id = ident(s.len());
    assert forall|i: int, j: int| 0 <= i < id.len() && 0 <= j < id.len() && i != j implies id[i]
        != id[j] by {
        assert(id[i] == i);
        assert(id[j] == j);
    }
    assert(id.no_duplicates());
    id.lemma_multiset_has_no_duplicates();
    s.lemma_multiset_has_no_duplicates_conv();
    assert forall|q: int| 0 <= q < s.len() implies (#[trigger] s[q]) < s.len() by {
        assert(s.contains(s[q]));
        assert(s.to_multiset().count(s[q]) > 0);
        assert(id.to_multiset().count(s[q]) > 0);
        assert(id.contains(s[q]));
    }
    assert forall|v: u32| v < s.len() implies #[trigger] s.contains(v) by {
        assert(id[v as int] == v);
        assert(id.contains(v));
        assert(id.to_multiset().count(v) > 0);
    }
}

/// A permutation of a subrange keeps every entry bounded by what bounded the
/// old subrange.
pub proof fn lemma_perm_bounded(old_s: Seq<u32>, new_s: Seq<u32>, start: int, end: int, n: int)
    requires
        0 <= start <= end <= old_s.len(),
        new_s.len() == old_s.len(),
        forall|k: int| 0 <= k < old_s.len() ==> old_s[k] < n,
        forall|k: int| 0 <= k < start || end <= k < old_s.len() ==> new_s[k] == old_s[k],
        new_s.subrange(start, end).to_multiset() == old_s.subrange(start, end).to_multiset(),
    ensures
        forall|k: int| 0 <= k < new_s.len() ==> new_s[k] < n,
{
    assert forall|k: int| 0 <= k < new_s.len() implies new_s[k] < n by {
        if start <= k < end {
            let v = new_s[k];
            assert(new_s.subrange(start, end)[k - start] == v);
            assert(new_s.subrange(start, end).contains(v));
            assert(new_s.subrange(start, end).to_multiset().count(v) > 0);
            assert(old_s.subrange(start, end).contains(v));
            let j = choose|j: int| 0 <= j < end - start && old_s.subrange(start, end)[j] == v;
            assert(old_s[start + j] == v);
        }
    }
}

/// The sort key of primitive `p`.
fn key_of(key: &Vec<u32>, p: u32) -> (k: u32)
    requires
        p < key@.len(),
    ensures
        k == key@[p as int],
{
    key[p as usize]
}

/// Sorts `v[start..end]` by `key[v[k]]` (stable), leaving the rest of `v`
/// alone.
///
/// Trusted: this calls `slice::sort_by_key` from std on the subslice. The
/// contract claims what its documentation says of a sort: the subslice ends
/// as a permutation of itself, ordered by the key.
#[verifier::external_body]
fn sort_range_by_key(v: &mut Vec<u32>, start: usize, end: usize, key: &Vec<u32>)
    requires
        start <= end <= old(v).len(),
        forall|k: int| start <= k < end ==> old(v)@[k] < key@.len(),
    ensures
        final(v)@.len() == old(v)@.len(),
        forall|k: int|
            0 <= k < start || end <= k < old(v)@.len() ==> final(v)@[k] == old(v)@[k],
        final(v)@.subrange(start as int, end as int).to_multiset() == old(v)@.subrange(
            start as int,
            end as int,
        ).to_multiset(),
        forall|i: int, j: int|
            start <= i < j < end ==> key@[final(v)@[i] as int] <= key@[final(v)@[j] as int],
{
    v[start..end].sort_by_key(|&p| key_of(key, p));
}

/// The split rule a builder is handed: given the index array and a range, it
/// returns the axis to split the range along, or `None` to keep it a leaf. Its
/// answers must name one of the `axes` key arrays.
pub open spec fn split_ok<S: Fn(&Vec<u32>, usize, usize) -> Option<usize>>(split: S, axes: nat) -> bool {
    &&& forall|v: &Vec<u32>, s: usize, e: usize| #[trigger] split.requires((v, s, e))
    &&& forall|v: &Vec<u32>, s: usize, e: usize, r: Option<usize>|
        #[trigger] split.ensures((v, s, e), r) ==> (r matches Some(a) ==> a < axes)
}

/// Every key array has one key per primitive.
pub open spec fn keys_ok(keys: Seq<Vec<u32>>, n: nat) -> bool {
    forall|a: int| 0 <= a < keys.len() ==> (#[trigger] keys[a])@.len() == n
}

/// The split rule declined to split positions `s..e` of an index array that
/// held `range` there.
pub open spec fn declined<S: Fn(&Vec<u32>, usize, usize) -> Option<usize>>(
    split: S,
    range: Seq<u32>,
    s: int,
    e: int,
) -> bool {
    exists|v: &Vec<u32>|
        #[trigger] split.ensures((v, s as usize, e as usize), None) && v@.subrange(s, e) == range
}

/// The split rule chose axis `ax` for positions `s..e` of an index array that
/// held a permutation of `range` there.
pub open spec fn chose<S: Fn(&Vec<u32>, usize, usize) -> Option<usize>>(
    split: S,
    range: Seq<u32>,
    s: int,
    e: int,
    ax: usize,
) -> bool {
    exists|v: &Vec<u32>|
        #[trigger] split.ensures((v, s as usize, e as usize), Some(ax)) && v@.subrange(s, e).to_multiset()
            == range.to_multiset()
}

/// Every primitive at positions `s..mid` comes no later on `key` than every
/// primitive at positions `mid..e`.
pub open spec fn halves_ordered(key: Seq<u32>, indices: Seq<u32>, s: int, mid: int, e: int) -> bool {
    forall|p: int, q: int|
        s <= p < mid <= q < e ==> #[trigger] key[indices[p] as int] <= #[trigger] key[indices[q] as int]
}

/// Node `i` is what the median-split builder makes: its leaves hold positions
/// `lo..hi` of the index array; a leaf holds at most `LEAF_SIZE` primitives
/// unless the split rule declined to split it; an interior node holds more,
/// was split along an axis the split rule chose, and its first child holds
/// the lower half of its positions, every one of them no later on that axis's
/// keys than any in the upper half.
pub open spec fn split_node<B, S: Fn(&Vec<u32>, usize, usize) -> Option<usize>>(
    nodes: Seq<Node<B>>,
    indices: Seq<u32>,
    keys: Seq<Vec<u32>>,
    split: S,
    i: int,
) -> bool {
    let nd = nodes[i];
    let s = lo_of(nodes, i);
    let e = hi_of(nodes, i);
    &&& covers(nodes, i) == range_set(s, e)
    &&& if nd.prim_count > 0 {
        nd.prim_count <= LEAF_SIZE || declined(split, indices.subrange(s, e), s, e)
    } else {
        let mid = s + (e - s) / 2;
        &&& e - s > LEAF_SIZE
        &&& hi_of(nodes, nd.child_a as int) == mid
        &&& lo_of(nodes, nd.child_b as int) == mid
        &&& exists|ax: usize|
            ax < keys.len() && #[trigger] chose(split, indices.subrange(s, e), s, e, ax) && halves_ordered(
                keys[ax as int]@,
                indices,
                s,
                mid,
                e,
            )
    }
}

/// Every node of the tree is what the median-split builder makes.
pub open spec fn split_tree<B, S: Fn(&Vec<u32>, usize, usize) -> Option<usize>>(
    nodes: Seq<Node<B>>,
    indices: Seq<u32>,
    keys: Seq<Vec<u32>>,
    split: S,
) -> bool {
    forall|i: int| 0 <= i < nodes.len() ==> #[trigger] split_node(nodes, indices, keys, split, i)
}

/// Whether node `i` is a split node depends on the index array only at the
/// positions it holds.
proof fn lemma_split_node_indices<B, S: Fn(&Vec<u32>, usize, usize) -> Option<usize>>(
    nodes: Seq<Node<B>>,
    idx1: Seq<u32>,
    idx2: Seq<u32>,
    keys: Seq<Vec<u32>>,
    split: S,
    i: int,
)
    requires
        0 <= lo_of(nodes, i) <= hi_of(nodes, i) <= idx1.len(),
        idx1.len() == idx2.len(),
        forall|p: int| lo_of(nodes, i) <= p < hi_of(nodes, i) ==> idx1[p] == idx2[p],
        split_node(nodes, idx1, keys, split, i),
    ensures
        split_node(nodes, idx2, keys, split, i),
{
    let s = lo_of(nodes, i);
    let e = hi_of(nodes, i);
    assert(idx1.subrange(s, e) =~= idx2.subrange(s, e));
    if nodes[i].prim_count == 0 {
        let mid = s + (e - s) / 2;
        let ax = choose|ax: usize|
            ax < keys.len() && #[trigger] chose(split, idx1.subrange(s, e), s, e, ax) && halves_ordered(
                keys[ax as int]@,
                idx1,
                s,
                mid,
                e,
            );
        assert(halves_ordered(keys[ax as int]@, idx2, s, mid, e)) by {
            assert forall|p: int, q: int| s <= p < mid <= q < e implies #[trigger] keys[ax as int]@[idx2[p] as int]
                <= #[trigger] keys[ax as int]@[idx2[q] as int] by {
                assert(idx1[p] == idx2[p]);
                assert(idx1[q] == idx2[q]);
            }
        }
        assert(chose(split, idx2.subrange(s, e), s, e, ax));
    }
}

/// Whether a node of a closed subtree is a split node survives extension of
/// the node array.
proof fn lemma_split_node_stable<B, S: Fn(&Vec<u32>, usize, usize) -> Option<usize>>(
    s1: Seq<Node<B>>,
    s2: Seq<Node<B>>,
    n: int,
    j: int,
    k: int,
    indices: Seq<u32>,
    keys: Seq<Vec<u32>>,
    split: S,
)
    requires
        0 <= j <= k < s1.len(),
        closed_from(s1, n, j),
        agree_from(s1, s2, j),
        split_node(s1, indices, keys, split, k),
    ensures
        split_node(s2, indices, keys, split, k),
{
    assert(node_ok(s1, n, k));
    lemma_covers_stable(s1, s2, n, k);
    if s1[k].prim_count == 0 {
        lemma_covers_stable(s1, s2, n, s1[k].child_a as int);
        lemma_covers_stable(s1, s2, n, s1[k].child_b as int);
    }
}

/// Whether a node is a split node depends on the topology only.
proof fn lemma_split_node_shape<B, S: Fn(&Vec<u32>, usize, usize) -> Option<usize>>(
    s1: Seq<Node<B>>,
    s2: Seq<Node<B>>,
    k: int,
    indices: Seq<u32>,
    keys: Seq<Vec<u32>>,
    split: S,
)
    requires
        0 <= k < s1.len(),
        same_shape(s1, s2),
        split_node(s1, indices, keys, split, k),
    ensures
        split_node(s2, indices, keys, split, k),
{
    lemma_shape_covers(s1, s2, k);
    assert(s1[k].child_a == s2[k].child_a && s1[k].child_b == s2[k].child_b);
    if s1[k].prim_count == 0 {
        lemma_shape_covers(s1, s2, s1[k].child_a as int);
        lemma_shape_covers(s1, s2, s1[k].child_b as int);
    }
}

/// A tree that keeps its topology and index order keeps its split structure.
pub proof fn lemma_split_tree_shape<B, S: Fn(&Vec<u32>, usize, usize) -> Option<usize>>(
    s1: Seq<Node<B>>,
    s2: Seq<Node<B>>,
    indices: Seq<u32>,
    keys: Seq<Vec<u32>>,
    split: S,
)
    requires
        same_shape(s1, s2),
        split_tree(s1, indices, keys, split),
    ensures
        split_tree(s2, indices, keys, split),
{
    assert forall|k: int| 0 <= k < s2.len() implies #[trigger] split_node(s2, indices, keys, split, k) by {
        assert(split_node(s1, indices, keys, split, k));
        lemma_split_node_shape(s1, s2, k, indices, keys, split);
    }
}

/// Halves ordered on a key stay ordered when each half is permuted within
/// itself.
proof fn lemma_halves_ordered_perm(key: Seq<u32>, idx1: Seq<u32>, idx2: Seq<u32>, s: int, mid: int, e: int)
    requires
        0 <= s <= mid <= e <= idx1.len(),
        idx1.len() == idx2.len(),
        halves_ordered(key, idx1, s, mid, e),
        idx2.subrange(s, mid).to_multiset() == idx1.subrange(s, mid).to_multiset(),
        idx2.subrange(mid, e).to_multiset() == idx1.subrange(mid, e).to_multiset(),
    ensures
        halves_ordered(key, idx2, s, mid, e),
{
    assert forall|p: int, q: int| s <= p < mid <= q < e implies #[trigger] key[idx2[p] as int]
        <= #[trigger] key[idx2[q] as int] by {
        let vp = idx2[p];
        let vq = idx2[q];
        assert(idx2.subrange(s, mid)[p - s] == vp);
        assert(idx2.subrange(s, mid).contains(vp));
        assert(idx2.subrange(s, mid).to_multiset().count(vp) > 0);
        assert(idx1.subrange(s, mid).contains(vp));
        let p1 = choose|x: int| 0 <= x < mid - s && idx1.subrange(s, mid)[x] == vp;
        assert(idx1[s + p1] == vp);
        assert(idx2.subrange(mid, e)[q - mid] == vq);
        assert(idx2.subrange(mid, e).contains(vq));
        assert(idx2.subrange(mid, e).to_multiset().count(vq) > 0);
        assert(idx1.subrange(mid, e).contains(vq));
        let q1 = choose|x: int| 0 <= x < e - mid && idx1.subrange(mid, e)[x] == vq;
        assert(idx1[mid + q1] == vq);
        assert(key[idx1[s + p1] as int] <= key[idx1[mid + q1] as int]);
    }
}

/// Recursively builds the subtree over `indices[start..end]`, appending its
/// nodes (root first) and returning the root's node index. Node bounds are
/// left as `empty`; a refit fills them.
#[verifier::spinoff_prover]
fn build_range<B: Copy, S: Fn(&Vec<u32>, usize, usize) -> Option<usize>>(
    nodes: &mut Vec<Node<B>>,
    indices: &mut Vec<u32>,
    keys: &Vec<Vec<u32>>,
    split: &S,
    empty: B,
    start: u32,
    end: u32,
) -> (node_index: u32)
    requires
        start < end <= old(indices)@.len() <= u32::MAX,
        old(nodes)@.len() + (end - start) <= u32::MAX,
        forall|k: int| 0 <= k < old(indices)@.len() ==> old(indices)@[k] < old(indices)@.len(),
        keys_ok(keys@, old(indices)@.len()),
        split_ok(*split, keys@.len()),
    ensures
        final(indices)@.len() == old(indices)@.len(),
        forall|k: int|
            0 <= k < start || end <= k < old(indices)@.len() ==> final(indices)@[k] == old(
                indices,
            )@[k],
        final(indices)@.subrange(start as int, end as int).to_multiset() == old(
            indices,
        )@.subrange(start as int, end as int).to_multiset(),
        forall|k: int| 0 <= k < final(indices)@.len() ==> final(indices)@[k] < final(indices)@.len(),
        node_index == old(nodes)@.len(),
        old(nodes)@.len() < final(nodes)@.len() <= old(nodes)@.len() + (end - start),
        end - start >= 2 ==> final(nodes)@.len() < old(nodes)@.len() + (end - start),
        forall|k: int|
            node_index <= k < final(nodes)@.len() && (#[trigger] final(nodes)@[k]).prim_count > 0
                ==> final(nodes)@[k].child_b == 0,
        forall|k: int| 0 <= k < old(nodes)@.len() ==> final(nodes)@[k] == old(nodes)@[k],
        closed_from(final(nodes)@, old(indices)@.len() as int, node_index as int),
        covers(final(nodes)@, node_index as int) == range_set(start as int, end as int),
        size(final(nodes)@, node_index as int) == final(nodes)@.len() - node_index,
        prims_below(final(nodes)@, node_index as int) == end - start,
        lo_of(final(nodes)@, node_index as int) == start,
        hi_of(final(nodes)@, node_index as int) == end,
        forall|k: int|
            node_index <= k < final(nodes)@.len() ==> #[trigger] split_node(
                final(nodes)@,
                final(indices)@,
                keys@,
                *split,
                k,
            ),
        forall|k: int|
            node_index <= k < final(nodes)@.len() ==> start <= #[trigger] lo_of(final(nodes)@, k) && lo_of(
                final(nodes)@,
                k,
            ) < hi_of(final(nodes)@, k) && hi_of(final(nodes)@, k) <= end,
    decreases end - start,
{
    let ghost n = indices@.len() as int;
    let node_index = nodes.len() as u32;
    let count = end - start;
    nodes.push(Node { bounds: empty, child_a: start, child_b: 0, prim_count: count });
    if count as usize <= LEAF_SIZE {
        proof {
            assert(node_ok(nodes@, n, node_index as int));
            assert(covers(nodes@, node_index as int) =~= range_set(start as int, end as int));
            assert(split_node(nodes@, indices@, keys@, *split, node_index as int));
            assert(lo_of(nodes@, node_index as int) == start);
            assert(hi_of(nodes@, node_index as int) == end);
            assert forall|k: int| node_index <= k < nodes@.len() implies start <= #[trigger] lo_of(
                nodes@,
                k,
            ) && lo_of(nodes@, k) < hi_of(nodes@, k) && hi_of(nodes@, k) <= end by {
                assert(k == node_index);
            }
        }
        return node_index;
    }
    let axis = split(&*indices, start as usize, end as usize);
    let ghost v0: Vec<u32> = *indices;
    match axis {
        None => {
            proof {
                assert(node_ok(nodes@, n, node_index as int));
                assert(covers(nodes@, node_index as int) =~= range_set(
                    start as int,
                    end as int,
                ));
                assert(split.ensures((&v0, start as int as usize, end as int as usize), None));
                assert(declined(
                    *split,
                    indices@.subrange(start as int, end as int),
                    start as int,
                    end as int,
                ));
                assert(split_node(nodes@, indices@, keys@, *split, node_index as int));
                assert(lo_of(nodes@, node_index as int) == start);
                assert(hi_of(nodes@, node_index as int) == end);
                assert forall|k: int| node_index <= k < nodes@.len() implies start <= #[trigger] lo_of(
                    nodes@,
                    k,
                ) && lo_of(nodes@, k) < hi_of(nodes@, k) && hi_of(nodes@, k) <= end by {
                    assert(k == node_index);
                }
            }
            node_index
        },
        Some(ax) => {
            let ghost idx0 = indices@;
            sort_range_by_key(indices, start as usize, end as usize, &keys[ax]);
            proof {
                lemma_perm_bounded(idx0, indices@, start as int, end as int, n);
            }
            let ghost idx1 = indices@;
            let ghost nodes1 = nodes@;
            let mid = start + count / 2;
            let child_a = build_range(nodes, indices, keys, split, empty, start, mid);
            let ghost idx2 = indices@;
            let ghost nodes2 = nodes@;
            let child_b = build_range(nodes, indices, keys, split, empty, mid, end);
            let ghost idx3 = indices@;
            let ghost nodes3 = nodes@;
            nodes[node_index as usize] = Node {
                bounds: empty,
                child_a: child_a,
                child_b: child_b,
                prim_count: 0,
            };
            proof {
                let fin = nodes@;
                // The index array: the three stages compose to a permutation of
                // the range.
                assert(idx3.subrange(start as int, mid as int) =~= idx2.subrange(
                    start as int,
                    mid as int,
                ));
                assert(idx2.subrange(mid as int, end as int) =~= idx1.subrange(
                    mid as int,
                    end as int,
                ));
                assert(idx3.subrange(start as int, end as int) =~= idx3.subrange(
                    start as int,
                    mid as int,
                ) + idx3.subrange(mid as int, end as int));
                assert(idx1.subrange(start as int, end as int) =~= idx1.subrange(
                    start as int,
                    mid as int,
                ) + idx1.subrange(mid as int, end as int));
                vstd::seq_lib::lemma_multiset_commutative(
                    idx3.subrange(start as int, mid as int),
                    idx3.subrange(mid as int, end as int),
                );
                vstd::seq_lib::lemma_multiset_commutative(
                    idx1.subrange(start as int, mid as int),
                    idx1.subrange(mid as int, end as int),
                );
                // The nodes: both subtrees are unchanged by what came after them.
                assert(agree_from(nodes2, nodes3, child_a as int));
                assert(agree_from(nodes2, fin, child_a as int));
                assert(agree_from(nodes3, fin, child_b as int));
                lemma_covers_stable(nodes2, fin, n, child_a as int);
                lemma_covers_stable(nodes3, fin, n, child_b as int);
                assert(fin[node_index as int].child_a == child_a);
                assert forall|k: int| node_index <= k < fin.len() implies #[trigger] node_ok(
                    fin,
                    n,
                    k,
                ) by {
                    if k == node_index {
                        assert(covers(fin, child_a as int).disjoint(covers(fin, child_b as int)));
                    } else if k < child_b {
                        lemma_node_ok_stable(nodes2, fin, n, child_a as int, k);
                    } else {
                        lemma_node_ok_stable(nodes3, fin, n, child_b as int, k);
                    }
                }
                assert(covers(fin, node_index as int) =~= range_set(start as int, end as int));
                assert(size(fin, node_index as int) == fin.len() - node_index);
                assert(prims_below(fin, node_index as int) == end - start);
                // The split structure: this node's halves, ordered on the
                // chosen axis, and both finished subtrees carried over.
                let key = keys@[ax as int]@;
                assert(halves_ordered(key, idx1, start as int, mid as int, end as int));
                assert(idx2.subrange(mid as int, end as int) =~= idx1.subrange(mid as int, end as int));
                lemma_halves_ordered_perm(key, idx1, idx3, start as int, mid as int, end as int);
                assert(split.ensures((&v0, start as int as usize, end as int as usize), Some(ax)));
                assert(chose(*split, idx3.subrange(start as int, end as int), start as int, end as int, ax));
                assert(node_ok(fin, n, node_index as int));
                assert(lo_of(fin, node_index as int) == start);
                assert(hi_of(fin, node_index as int) == end);
                assert(split_node(fin, idx3, keys@, *split, node_index as int));
                assert forall|k: int| node_index <= k < fin.len() implies #[trigger] split_node(
                    fin,
                    idx3,
                    keys@,
                    *split,
                    k,
                ) && start <= lo_of(fin, k) && lo_of(fin, k) < hi_of(fin, k) && hi_of(fin, k)
                    <= end by {
                    if k == node_index {
                    } else if k < child_b {
                        assert(split_node(nodes2, idx2, keys@, *split, k));
                        lemma_split_node_stable(nodes2, fin, n, child_a as int, k, idx2, keys@, *split);
                        lemma_covers_stable(nodes2, fin, n, k);
                        lemma_split_node_indices(fin, idx2, idx3, keys@, *split, k);
                    } else {
                        assert(split_node(nodes3, idx3, keys@, *split, k));
                        lemma_split_node_stable(nodes3, fin, n, child_b as int, k, idx3, keys@, *split);
                        lemma_covers_stable(nodes3, fin, n, k);
                    }
                }
                assert forall|k: int| node_index <= k < nodes@.len() implies #[trigger] split_node(
                    nodes@,
                    indices@,
                    keys@,
                    *split,
                    k,
                ) by {
                    assert(split_node(fin, idx3, keys@, *split, k));
                }
                assert forall|k: int| node_index <= k < nodes@.len() implies start <= #[trigger] lo_of(
                    nodes@,
                    k,
                ) && lo_of(nodes@, k) < hi_of(nodes@, k) && hi_of(nodes@, k) <= end by {
                    assert(split_node(fin, idx3, keys@, *split, k));
                }
            }
            node_index
        },
    }
}

/// `s1` and `s2` have the same topology: equal length, and equal links and
/// primitive counts at every node. Only the bounds may differ.
pub open spec fn same_shape<B>(s1: Seq<Node<B>>, s2: Seq<Node<B>>) -> bool {
    &&& s1.len() == s2.len()
    &&& forall|k: int|
        0 <= k < s1.len() ==> {
            &&& (#[trigger] s1[k]).child_a == s2[k].child_a
            &&& s1[k].child_b == s2[k].child_b
            &&& s1[k].prim_count == s2[k].prim_count
        }
}

/// Coverage, size and well-formedness depend on the topology only.
pub proof fn lemma_shape_covers<B>(s1: Seq<Node<B>>, s2: Seq<Node<B>>, i: int)
    requires
        same_shape(s1, s2),
    ensures
        covers(s1, i) == covers(s2, i),
        size(s1, i) == size(s2, i),
        prims_below(s1, i) == prims_below(s2, i),
        depth(s1, i) == depth(s2, i),
        lo_of(s1, i) == lo_of(s2, i),
        hi_of(s1, i) == hi_of(s2, i),
    decreases s1.len() - i,
{
    if 0 <= i < s1.len() {
        let nd = s1[i];
        assert(s2[i].child_a == nd.child_a && s2[i].child_b == nd.child_b);
        if nd.prim_count == 0 && links_ok(s1, i) {
            lemma_shape_covers(s1, s2, nd.child_a as int);
            lemma_shape_covers(s1, s2, nd.child_b as int);
        }
    }
}

/// The tree invariant depends on the topology only.
pub proof fn lemma_shape_wf<B>(s1: Seq<Node<B>>, s2: Seq<Node<B>>, indices: Seq<u32>)
    requires
        same_shape(s1, s2),
        tree_wf(s1, indices),
    ensures
        tree_wf(s2, indices),
{
    assert forall|i: int| 0 <= i < s2.len() implies #[trigger] node_ok(
        s2,
        indices.len() as int,
        i,
    ) by {
        assert(node_ok(s1, indices.len() as int, i));
        assert(s1[i].child_a == s2[i].child_a);
        if s1[i].prim_count == 0 {
            lemma_shape_covers(s1, s2, s1[i].child_a as int);
            lemma_shape_covers(s1, s2, s1[i].child_b as int);
            lemma_shape_covers(s1, s2, i + 1);
        }
    }
    if s1.len() > 0 {
        lemma_shape_covers(s1, s2, 0);
    }
}

/// The union rule a tree is handed: callable on any two bounds, and a
/// function (equal inputs give equal results).
pub open spec fn union_ok<B, U: Fn(B, B) -> B>(union: U) -> bool {
    &&& forall|a: B, b: B| #[trigger] union.requires((a, b))
    &&& forall|a: B, b: B, r1: B, r2: B|
        #[trigger] union.ensures((a, b), r1) && #[trigger] union.ensures((a, b), r2) ==> r1 == r2
}

/// The union of `a` and `b` under `union`.
pub open spec fn join<B, U: Fn(B, B) -> B>(union: U, a: B, b: B) -> B {
    choose|r: B| union.ensures((a, b), r)
}

/// A result of `union` on `(a, b)` is `join(union, a, b)`.
pub proof fn lemma_join<B, U: Fn(B, B) -> B>(union: U, a: B, b: B, r: B)
    requires
        union_ok(union),
        union.ensures((a, b), r),
    ensures
        r == join(union, a, b),
{
    let c = join(union, a, b);
    assert(union.ensures((a, b), c));
}

/// The bounds of positions `lo..hi` of the index array folded together, left
/// to right, starting from `empty`.
pub open spec fn fold_range<B, U: Fn(B, B) -> B>(
    union: U,
    prim_bounds: Seq<B>,
    indices: Seq<u32>,
    empty: B,
    lo: int,
    hi: int,
) -> B
    decreases hi - lo,
{
    if hi <= lo {
        empty
    } else {
        join(
            union,
            fold_range(union, prim_bounds, indices, empty, lo, hi - 1),
            prim_bounds[indices[hi - 1] as int],
        )
    }
}

/// The bounds node `i` should hold: a leaf folds its primitives' bounds; an
/// interior node joins its two children's bounds.
pub open spec fn fitted_bounds<B, U: Fn(B, B) -> B>(
    union: U,
    nodes: Seq<Node<B>>,
    indices: Seq<u32>,
    prim_bounds: Seq<B>,
    empty: B,
    i: int,
) -> B {
    let nd = nodes[i];
    if nd.prim_count > 0 {
        fold_range(union, prim_bounds, indices, empty, nd.child_a as int, nd.child_a + nd.prim_count)
    } else {
        join(union, nodes[nd.child_a as int].bounds, nodes[nd.child_b as int].bounds)
    }
}

/// Every node holds its fitted bounds.
pub open spec fn all_fitted<B, U: Fn(B, B) -> B>(
    union: U,
    nodes: Seq<Node<B>>,
    indices: Seq<u32>,
    prim_bounds: Seq<B>,
    empty: B,
) -> bool {
    forall|i: int|
        0 <= i < nodes.len() ==> (#[trigger] nodes[i]).bounds == fitted_bounds(
            union,
            nodes,
            indices,
            prim_bounds,
            empty,
            i,
        )
}

/// The number of leaf nodes among nodes `lo..hi` of the array.
pub open spec fn leaf_nodes_in<B>(nodes: Seq<Node<B>>, lo: int, hi: int) -> nat
    decreases hi - lo,
{
    if lo >= hi {
        0
    } else {
        (if nodes[lo].prim_count > 0 {
            1nat
        } else {
            0nat
        }) + leaf_nodes_in(nodes, lo + 1, hi)
    }
}

/// The primitives held by the leaf nodes among nodes `lo..hi` of the array.
pub open spec fn prims_in<B>(nodes: Seq<Node<B>>, lo: int, hi: int) -> nat
    decreases hi - lo,
{
    if lo >= hi {
        0
    } else {
        nodes[lo].prim_count as nat + prims_in(nodes, lo + 1, hi)
    }
}

/// Primitive sums over adjacent array ranges add up.
pub proof fn lemma_prims_in_split<B>(nodes: Seq<Node<B>>, lo: int, mid: int, hi: int)
    requires
        lo <= mid <= hi,
    ensures
        prims_in(nodes, lo, hi) == prims_in(nodes, lo, mid) + prims_in(nodes, mid, hi),
    decreases mid - lo,
{
    if lo < mid {
        lemma_prims_in_split(nodes, lo + 1, mid, hi);
    }
}

/// Leaf-node counts over adjacent array ranges add up.
pub proof fn lemma_leaf_nodes_split<B>(nodes: Seq<Node<B>>, lo: int, mid: int, hi: int)
    requires
        lo <= mid <= hi,
    ensures
        leaf_nodes_in(nodes, lo, hi) == leaf_nodes_in(nodes, lo, mid) + leaf_nodes_in(nodes, mid, hi),
    decreases mid - lo,
{
    if lo < mid {
        lemma_leaf_nodes_split(nodes, lo + 1, mid, hi);
    }
}

/// A well-formed subtree is a full binary tree: the array range it occupies
/// holds one more leaf node than interior node.
pub proof fn lemma_subtree_leaves<B>(nodes: Seq<Node<B>>, n: int, i: int)
    requires
        0 <= i < nodes.len(),
        closed_from(nodes, n, i),
    ensures
        i + size(nodes, i) <= nodes.len(),
        2 * leaf_nodes_in(nodes, i, i + size(nodes, i)) == size(nodes, i) + 1,
    decreases nodes.len() - i,
{
    assert(node_ok(nodes, n, i));
    lemma_subtree_range(nodes, n, i);
    let nd = nodes[i];
    if nd.prim_count > 0 {
        assert(leaf_nodes_in(nodes, i + 1, i + 1) == 0);
    } else {
        let a = nd.child_a as int;
        let b = nd.child_b as int;
        lemma_subtree_leaves(nodes, n, a);
        lemma_subtree_leaves(nodes, n, b);
        lemma_leaf_nodes_split(nodes, a, b, b + size(nodes, b));
    }
}

/// A subtree occupies the array range `i..i + size(i)`, and the primitives
/// its leaves hold are the ones that range holds.
pub proof fn lemma_subtree_range<B>(nodes: Seq<Node<B>>, n: int, i: int)
    requires
        0 <= i < nodes.len(),
        closed_from(nodes, n, i),
    ensures
        i + size(nodes, i) <= nodes.len(),
        prims_in(nodes, i, i + size(nodes, i)) == prims_below(nodes, i),
        depth(nodes, i) <= size(nodes, i),
    decreases nodes.len() - i,
{
    assert(node_ok(nodes, n, i));
    let nd = nodes[i];
    if nd.prim_count > 0 {
        assert(prims_in(nodes, i + 1, i + 1) == 0);
    } else {
        let a = nd.child_a as int;
        let b = nd.child_b as int;
        lemma_subtree_range(nodes, n, a);
        lemma_subtree_range(nodes, n, b);
        lemma_prims_in_split(nodes, a, b, b + size(nodes, b));
    }
}

/// A BVH topology over `n` primitives: a flat node array (root at 0) and the
/// primitive index order its leaves slice into.
pub struct Tree<B> {
    nodes: Vec<Node<B>>,
    indices: Vec<u32>,
}

impl<B: Copy> Tree<B> {
    /// The node array.
    pub closed spec fn node_seq(&self) -> Seq<Node<B>> {
        self.nodes@
    }

    /// The primitive index order.
    pub closed spec fn index_seq(&self) -> Seq<u32> {
        self.indices@
    }

    /// The tree invariant.
    pub open spec fn wf(&self) -> bool {
        tree_wf(self.node_seq(), self.index_seq())
    }

    /// Whether every node holds the bounds a refit from `prim_bounds` gives it.
    pub open spec fn fitted<U: Fn(B, B) -> B>(&self, union: U, prim_bounds: Seq<B>, empty: B) -> bool {
        all_fitted(union, self.node_seq(), self.index_seq(), prim_bounds, empty)
    }

    /// Builds a median-split tree over `bounds.len()` primitives.
    ///
    /// A range of more than `LEAF_SIZE` primitives is offered to `split`; when
    /// it names an axis, the range is sorted by that axis's keys (`keys[axis][p]`
    /// for primitive `p`) and cut in half, otherwise it stays a leaf. The node
    /// bounds are then fitted from `bounds` with `union`, starting each leaf
    /// from `empty`.
    pub fn build<S: Fn(&Vec<u32>, usize, usize) -> Option<usize>, U: Fn(B, B) -> B>(
        bounds: &Vec<B>,
        keys: &Vec<Vec<u32>>,
        split: &S,
        empty: B,
        union: &U,
    ) -> (t: Self)
        requires
            bounds@.len() <= u32::MAX,
            keys_ok(keys@, bounds@.len()),
            split_ok(*split, keys@.len()),
            union_ok(*union),
        ensures
            t.wf(),
            t.index_seq().len() == bounds@.len(),
            bounds@.len() >= 2 ==> t.node_seq().len() < bounds@.len(),
            forall|k: int|
                0 <= k < t.node_seq().len() && (#[trigger] t.node_seq()[k]).prim_count > 0
                    ==> t.node_seq()[k].child_b == 0,
            t.fitted(*union, bounds@, empty),
            split_tree(t.node_seq(), t.index_seq(), keys@, *split),
    {
        let n = bounds.len();
        let mut indices: Vec<u32> = Vec::new();
        let mut i: usize = 0;
        while i < n
            invariant
                0 <= i <= n,
                n == bounds@.len(),
                n <= u32::MAX,
                indices@ == ident(i as nat),
            decreases n - i,
        {
            indices.push(i as u32);
            i = i + 1;
            proof {
                assert(indices@ =~= ident(i as nat));
            }
        }
        let mut nodes: Vec<Node<B>> = Vec::new();
        if n > 0 {
            proof {
                assert forall|k: int| 0 <= k < indices@.len() implies indices@[k] < indices@.len() by {
                    assert(indices@[k] == k);
                }
            }
            let ghost idx0 = indices@;
            build_range(&mut nodes, &mut indices, keys, split, empty, 0, n as u32);
            proof {
                assert(idx0.subrange(0, n as int) =~= idx0);
                assert(indices@.subrange(0, n as int) =~= indices@);
            }
        }
        let mut t = Tree { nodes, indices };
        let ghost before = t.nodes@;
        proof {
            assert(split_tree(before, t.indices@, keys@, *split));
        }
        t.refit_bounds(bounds, empty, union);
        proof {
            lemma_split_tree_shape(before, t.nodes@, t.indices@, keys@, *split);
            assert forall|k: int|
                0 <= k < t.nodes@.len() && (#[trigger] t.nodes@[k]).prim_count > 0 implies t.nodes@[k].child_b
                    == 0 by {
                assert(before[k].prim_count == t.nodes@[k].prim_count);
                assert(before[k].child_b == t.nodes@[k].child_b);
                assert(before[k].prim_count > 0);
            }
        }
        t
    }

    /// Refits every node's bounds bottom-up from fresh per-primitive bounds,
    /// keeping the topology and the index order. `prim_bounds` is indexed by
    /// primitive id.
    pub fn refit_bounds<U: Fn(B, B) -> B>(&mut self, prim_bounds: &Vec<B>, empty: B, union: &U)
        requires
            old(self).wf(),
            old(self).index_seq().len() <= prim_bounds@.len(),
            union_ok(*union),
        ensures
            final(self).wf(),
            same_shape(old(self).node_seq(), final(self).node_seq()),
            final(self).index_seq() == old(self).index_seq(),
            final(self).fitted(*union, prim_bounds@, empty),
    {
        let ghost old_nodes = self.nodes@;
        let ghost old_idx = self.indices@;
        let ghost n = self.indices@.len() as int;
        proof {
            lemma_perm_facts(self.indices@);
        }
        let mut ni = self.nodes.len();
        while ni > 0
            invariant
                0 <= ni <= self.nodes@.len(),
                same_shape(old_nodes, self.nodes@),
                self.indices@ == old_idx,
                tree_wf(old_nodes, self.indices@),
                n == self.indices@.len(),
                n <= prim_bounds@.len(),
                union_ok(*union),
                forall|q: int| 0 <= q < n ==> (#[trigger] self.indices@[q]) < n,
                forall|k: int|
                    ni <= k < self.nodes@.len() ==> (#[trigger] self.nodes@[k]).bounds
                        == fitted_bounds(*union, self.nodes@, self.indices@, prim_bounds@, empty, k),
            decreases ni,
        {
            ni = ni - 1;
            let node = self.nodes[ni];
            proof {
                assert(node_ok(old_nodes, n, ni as int));
                assert(old_nodes[ni as int].prim_count == node.prim_count);
            }
            let ghost before = self.nodes@;
            if node.prim_count > 0 {
                let start = node.child_a as usize;
                let end = start + node.prim_count as usize;
                let mut b = empty;
                let mut k = start;
                while k < end
                    invariant
                        start <= k <= end <= n,
                        n == self.indices@.len(),
                        n <= prim_bounds@.len(),
                        union_ok(*union),
                        forall|q: int| 0 <= q < n ==> (#[trigger] self.indices@[q]) < n,
                        b == fold_range(*union, prim_bounds@, self.indices@, empty, start as int, k as int),
                    decreases end - k,
                {
                    let pb = prim_bounds[self.indices[k] as usize];
                    let nb = union(b, pb);
                    proof {
                        lemma_join(*union, b, pb, nb);
                    }
                    b = nb;
                    k = k + 1;
                }
                self.nodes[ni] = Node { bounds: b, ..node };
            } else {
                let a = self.nodes[node.child_a as usize].bounds;
                let c = self.nodes[node.child_b as usize].bounds;
                let nb = union(a, c);
                proof {
                    lemma_join(*union, a, c, nb);
                }
                self.nodes[ni] = Node { bounds: nb, ..node };
            }
            proof {
                assert forall|k: int| ni <= k < self.nodes@.len() implies (#[trigger] self.nodes@[
                    k
                ]).bounds == fitted_bounds(*union, self.nodes@, self.indices@, prim_bounds@, empty, k) by {
                    if k > ni {
                        assert(self.nodes@[k] == before[k]);
                        assert(node_ok(old_nodes, n, k));
                        if before[k].prim_count == 0 {
                            assert(before[k].child_a > ni);
                            assert(before[k].child_b > ni);
                        }
                    }
                }
            }
        }
        proof {
            lemma_shape_wf(old_nodes, self.nodes@, self.indices@);
        }
    }

    /// Structural counts over the node array: `(leaf_count, prim_count,
    /// max_depth)`, where depth is the longest root-to-leaf path counted in
    /// nodes (zero for an empty tree). Every primitive is counted exactly once.
    pub fn structural(&self) -> (r: (usize, usize, usize))
        requires
            self.wf(),
        ensures
            r.0 == leaf_nodes_in(self.node_seq(), 0, self.node_seq().len() as int),
            r.1 == prims_in(self.node_seq(), 0, self.node_seq().len() as int),
            r.1 == self.index_seq().len(),
            r.2 == depth(self.node_seq(), 0),
    {
        let len = self.nodes.len();
        if len == 0 {
            return (0, 0, 0);
        }
        let ghost nodes = self.nodes@;
        let ghost n = self.indices@.len() as int;
        proof {
            lemma_subtree_range(nodes, n, 0);
        }
        let mut depth_v: Vec<usize> = vec![0usize; len];
        let mut leaf_count: usize = 0;
        let mut prim_count: usize = 0;
        let mut ni = len;
        while ni > 0
            invariant
                0 <= ni <= len,
                len == nodes.len(),
                nodes == self.nodes@,
                tree_wf(nodes, self.indices@),
                n == self.indices@.len(),
                prims_in(nodes, 0, len as int) == n,
                depth_v@.len() == len,
                leaf_count == leaf_nodes_in(nodes, ni as int, len as int),
                leaf_count <= len - ni,
                prim_count == prims_in(nodes, ni as int, len as int),
                forall|k: int| ni <= k < len ==> (#[trigger] depth_v@[k]) == depth(nodes, k),
            decreases ni,
        {
            ni = ni - 1;
            let node = self.nodes[ni];
            proof {
                assert(node_ok(nodes, n, ni as int));
                lemma_prims_in_split(nodes, 0, ni as int, len as int);
                lemma_subtree_range(nodes, n, ni as int);
            }
            if node.prim_count > 0 {
                leaf_count = leaf_count + 1;
                prim_count = prim_count + node.prim_count as usize;
                depth_v[ni] = 1;
            } else {
                let da = depth_v[node.child_a as usize];
                let db = depth_v[node.child_b as usize];
                proof {
                    lemma_subtree_range(nodes, n, node.child_a as int);
                    lemma_subtree_range(nodes, n, node.child_b as int);
                }
                let m = if da >= db {
                    da
                } else {
                    db
                };
                depth_v[ni] = 1 + m;
            }
        }
        (leaf_count, prim_count, depth_v[0])
    }

    /// A read-out of the tree's shape, carrying the caller's quality metric.
    pub fn stats<Q>(&self, quality: Q) -> (st: TreeStats<Q>)
        requires
            self.wf(),
        ensures
            st.node_count == self.node_seq().len(),
            st.leaf_count == leaf_nodes_in(self.node_seq(), 0, self.node_seq().len() as int),
            st.prim_count == self.index_seq().len(),
            st.max_depth == depth(self.node_seq(), 0),
            st.quality == quality,
            st.bytes == heap_bytes(
                self.node_seq().len(),
                vstd::layout::size_of::<Node<B>>(),
                self.index_seq().len(),
            ),
    {
        let (leaf_count, prim_count, max_depth) = self.structural();
        let node_count = self.nodes.len();
        let node_bytes = saturating_product(node_count, core::mem::size_of::<Node<B>>());
        let index_bytes = saturating_product(prim_count, core::mem::size_of::<u32>());
        proof {
            broadcast use vstd::layout::layout_of_primitives;
            assert(vstd::layout::size_of::<u32>() == 4);
        }
        let bytes = node_bytes.saturating_add(index_bytes);
        TreeStats { node_count, leaf_count, prim_count, max_depth, quality, bytes }
    }

    /// The number of nodes.
    pub fn node_count(&self) -> (r: usize)
        ensures
            r == self.node_seq().len(),
    {
        self.nodes.len()
    }

    /// The number of primitives the tree indexes.
    pub fn prim_total(&self) -> (r: usize)
        ensures
            r == self.index_seq().len(),
    {
        self.indices.len()
    }

    /// The node array, root first.
    pub fn nodes(&self) -> (r: &Vec<Node<B>>)
        ensures
            r@ == self.node_seq(),
    {
        &self.nodes
    }

    /// The primitive index order that leaves slice into.
    pub fn prim_indices(&self) -> (r: &Vec<u32>)
        ensures
            r@ == self.index_seq(),
    {
        &self.indices
    }
}

} // verus!
