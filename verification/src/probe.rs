//! What a traversal asks of the caller's tests, stated over closures.
//!
//! The exact geometry (ray and box maths, a provider's narrow test) stays
//! with the caller; a traversal is handed closures for it. The predicates
//! here say what those closures must satisfy for the traversal's results to
//! be the ones a full scan gives: a leaf test reports the leaf's own hit
//! whatever the limit it is asked with (when the hit lies within the limit),
//! acceptance is a function of the leaf, and a node or box test only rejects
//! when nothing below it can be hit within the limit.
use crate::hit::{Hit, Overlap};
use crate::order::spec_key32;
use crate::tree::{covers, Node};
use vstd::prelude::*;

verus! {

/// A leaf test `(leaf, limit) -> Option<(toi, payload)>` that is callable on
/// everything, reports hits within the limit only, reports the same hit for a
/// leaf whatever the limit, and does not miss a hit that lies within the limit.
pub open spec fn leaf_test_ok<P, LT: Fn(usize, u32) -> Option<(u32, P)>>(lt: LT) -> bool {
    &&& forall|l: usize, lim: u32| #[trigger] lt.requires((l, lim))
    &&& forall|l: usize, lim: u32, h: (u32, P)|
        #[trigger] lt.ensures((l, lim), Some(h)) ==> spec_key32(h.0) <= spec_key32(lim)
    &&& forall|l: usize, lim1: u32, lim2: u32, h1: (u32, P), h2: (u32, P)|
        #[trigger] lt.ensures((l, lim1), Some(h1)) && #[trigger] lt.ensures((l, lim2), Some(h2))
            ==> h1 == h2
    &&& forall|l: usize, lim1: u32, lim2: u32, h1: (u32, P)|
        #[trigger] lt.ensures((l, lim1), Some(h1)) && spec_key32(h1.0) <= spec_key32(lim2)
            ==> !(#[trigger] lt.ensures((l, lim2), None))
}

/// An acceptance test that is callable on every leaf and answers each leaf
/// one way only.
pub open spec fn accepts_ok<AC: Fn(usize) -> bool>(ac: AC) -> bool {
    &&& forall|l: usize| #[trigger] ac.requires((l,))
    &&& forall|l: usize| !(#[trigger] ac.ensures((l,), true) && ac.ensures((l,), false))
}

/// A node test callable on every bound and limit that answers each one way
/// only.
pub open spec fn node_test_ok<B, NT: Fn(B, u32) -> bool>(nt: NT) -> bool {
    &&& forall|b: B, lim: u32| #[trigger] nt.requires((b, lim))
    &&& forall|b: B, lim: u32| !(#[trigger] nt.ensures((b, lim), true) && nt.ensures((b, lim), false))
}

/// A box test on a leaf, callable everywhere.
pub open spec fn box_test_ok<BT: Fn(usize, u32) -> bool>(bt: BT) -> bool {
    forall|l: usize, lim: u32| #[trigger] bt.requires((l, lim))
}

/// `h` is a hit the leaf test can report for `leaf`.
pub open spec fn leaf_hit<P, LT: Fn(usize, u32) -> Option<(u32, P)>>(lt: LT, leaf: usize, h: (u32, P)) -> bool {
    exists|lim: u32| #[trigger] lt.ensures((leaf, lim), Some(h))
}

/// `h` is a hit a ray query over leaves `0..n` within `max_toi` must consider:
/// an accepted leaf, and that leaf's own hit, no farther than `max_toi`.
pub open spec fn ray_candidate<P, AC: Fn(usize) -> bool, LT: Fn(usize, u32) -> Option<(u32, P)>>(
    ac: AC,
    lt: LT,
    n: nat,
    max_toi: u32,
    h: Hit<P>,
) -> bool {
    &&& h.leaf < n
    &&& ac.ensures((h.leaf,), true)
    &&& leaf_hit(lt, h.leaf, (h.toi, h.payload))
    &&& spec_key32(h.toi) <= spec_key32(max_toi)
}

/// `r` is the nearest candidate: `None` when there is none, else a candidate
/// that no candidate precedes.
pub open spec fn is_nearest<P, AC: Fn(usize) -> bool, LT: Fn(usize, u32) -> Option<(u32, P)>>(
    ac: AC,
    lt: LT,
    n: nat,
    max_toi: u32,
    r: Option<Hit<P>>,
) -> bool {
    match r {
        None => forall|h: Hit<P>| !#[trigger] ray_candidate(ac, lt, n, max_toi, h),
        Some(b) => {
            &&& ray_candidate(ac, lt, n, max_toi, b)
            &&& forall|h: Hit<P>| #[trigger] ray_candidate(ac, lt, n, max_toi, h) ==> !crate::hit::hit_before(h, b)
        },
    }
}

/// `s` holds every candidate, nothing else, in strictly increasing hit order.
pub open spec fn is_all_hits<P, AC: Fn(usize) -> bool, LT: Fn(usize, u32) -> Option<(u32, P)>>(
    ac: AC,
    lt: LT,
    n: nat,
    max_toi: u32,
    s: Seq<Hit<P>>,
) -> bool {
    &&& forall|i: int, j: int| 0 <= i < j < s.len() ==> crate::hit::hit_before(s[i], s[j])
    &&& forall|h: Hit<P>| s.contains(h) <==> #[trigger] ray_candidate(ac, lt, n, max_toi, h)
}

/// A node test that rejects a node at a limit only when no leaf below the node
/// has a hit within that limit.
pub open spec fn prunes_soundly<B, P, NT: Fn(B, u32) -> bool, LT: Fn(usize, u32) -> Option<(u32, P)>>(
    nodes: Seq<Node<B>>,
    indices: Seq<u32>,
    nt: NT,
    lt: LT,
) -> bool {
    forall|i: int, q: int, lim: u32, lim2: u32, h: (u32, P)|
        0 <= i < nodes.len() && covers(nodes, i).contains(q) && #[trigger] nt.ensures(
            (nodes[i].bounds, lim),
            false,
        ) && #[trigger] lt.ensures((indices[q] as usize, lim2), Some(h)) ==> spec_key32(lim)
            < spec_key32(h.0)
}

/// A box test that rejects a leaf at a limit only when the leaf has no hit
/// within that limit.
pub open spec fn box_rejects_soundly<P, BT: Fn(usize, u32) -> bool, LT: Fn(usize, u32) -> Option<(u32, P)>>(
    bt: BT,
    lt: LT,
) -> bool {
    forall|l: usize, lim: u32, lim2: u32, h: (u32, P)|
        #[trigger] bt.ensures((l, lim), false) && #[trigger] lt.ensures((l, lim2), Some(h))
            ==> spec_key32(lim) < spec_key32(h.0)
}

/// An overlap test `leaf -> Option<id>` that is callable on every leaf and
/// answers each leaf one way only.
pub open spec fn overlap_test_ok<Id, OT: Fn(usize) -> Option<Id>>(ot: OT) -> bool {
    &&& forall|l: usize| #[trigger] ot.requires((l,))
    &&& forall|l: usize, r1: Option<Id>, r2: Option<Id>|
        #[trigger] ot.ensures((l,), r1) && #[trigger] ot.ensures((l,), r2) ==> r1 == r2
}

/// A region test callable on every bound that answers each bound one way only.
pub open spec fn region_test_ok<B, RT: Fn(B) -> bool>(rt: RT) -> bool {
    &&& forall|b: B| #[trigger] rt.requires((b,))
    &&& forall|b: B, r1: bool, r2: bool|
        #[trigger] rt.ensures((b,), r1) && #[trigger] rt.ensures((b,), r2) ==> r1 == r2
}

/// A region test that rejects a node only when it rejects the own bounds of
/// every leaf below the node.
pub open spec fn region_prunes_soundly<B, RT: Fn(B) -> bool>(
    nodes: Seq<Node<B>>,
    indices: Seq<u32>,
    rt: RT,
    leaf_bounds: Seq<B>,
) -> bool {
    forall|i: int, q: int|
        0 <= i < nodes.len() && covers(nodes, i).contains(q) && #[trigger] rt.ensures(
            (nodes[i].bounds,),
            false,
        ) ==> !#[trigger] rt.ensures((leaf_bounds[indices[q] as int],), true)
}

/// `o` is an overlap an overlap query over leaves `0..n` must report: the
/// leaf passes the filter, its own bounds meet the region, and the exact test
/// gives its id.
pub open spec fn overlap_candidate<
    B,
    Id,
    AC: Fn(usize) -> bool,
    RT: Fn(B) -> bool,
    OT: Fn(usize) -> Option<Id>,
>(ac: AC, rt: RT, leaf_bounds: Seq<B>, ot: OT, n: nat, o: Overlap<Id>) -> bool {
    &&& o.leaf < n
    &&& ac.ensures((o.leaf,), true)
    &&& rt.ensures((leaf_bounds[o.leaf as int],), true)
    &&& ot.ensures((o.leaf,), Some(o.id))
}

/// `s` holds every overlap candidate, nothing else, in strictly increasing
/// leaf order.
pub open spec fn is_all_overlaps<
    B,
    Id,
    AC: Fn(usize) -> bool,
    RT: Fn(B) -> bool,
    OT: Fn(usize) -> Option<Id>,
>(ac: AC, rt: RT, leaf_bounds: Seq<B>, ot: OT, n: nat, s: Seq<Overlap<Id>>) -> bool {
    &&& forall|i: int, j: int| 0 <= i < j < s.len() ==> s[i].leaf < s[j].leaf
    &&& forall|o: Overlap<Id>|
        s.contains(o) <==> #[trigger] overlap_candidate(ac, rt, leaf_bounds, ot, n, o)
}

} // verus!
