//! Naive O(N) query baseline.
//!
//! These scan every leaf. They are the reference the accelerated tree is
//! checked against, and a reasonable choice for tiny leaf counts. They use
//! the same hit order as the tree, so results match exactly.
use crate::hit::{hit_before, hit_le, sort_hits, Hit, Overlap};
use crate::order::spec_key32;
use crate::probe::{
    accepts_ok, box_rejects_soundly, box_test_ok, is_all_hits, is_all_overlaps, is_nearest,
    leaf_hit, leaf_test_ok, overlap_candidate, overlap_test_ok, ray_candidate, region_test_ok,
};
use crate::traverse::lemma_sorted_all_hits;
use vstd::prelude::*;

verus! {

broadcast use vstd::seq_lib::group_to_multiset_ensures;

/// Nearest hit within `max_toi`, scanning leaves `0..leaf_count` in order.
///
/// Each accepted leaf is first rejected cheaply by `box_test(leaf, limit)`
/// (its bounding box) before the exact `leaf_test(leaf, limit)`; the limit
/// shrinks to the best hit so far.
pub fn raycast_nearest<
    P,
    BT: Fn(usize, u32) -> bool,
    AC: Fn(usize) -> bool,
    LT: Fn(usize, u32) -> Option<(u32, P)>,
>(leaf_count: usize, max_toi: u32, box_test: &BT, accepts: &AC, leaf_test: &LT) -> (r: Option<Hit<P>>)
    requires
        box_test_ok(*box_test),
        accepts_ok(*accepts),
        leaf_test_ok(*leaf_test),
        box_rejects_soundly(*box_test, *leaf_test),
    ensures
        is_nearest(*accepts, *leaf_test, leaf_count as nat, max_toi, r),
{
    let ghost n = leaf_count as nat;
    let mut best: Option<Hit<P>> = None;
    let mut limit = max_toi;
    let mut leaf: usize = 0;
    while leaf < leaf_count
        invariant
            0 <= leaf <= leaf_count,
            n == leaf_count,
            box_test_ok(*box_test),
            accepts_ok(*accepts),
            leaf_test_ok(*leaf_test),
            box_rejects_soundly(*box_test, *leaf_test),
            best is None ==> limit == max_toi,
            best matches Some(b) ==> ray_candidate(*accepts, *leaf_test, n, max_toi, b) && limit == b.toi,
            forall|h: Hit<P>|
                #[trigger] ray_candidate(*accepts, *leaf_test, n, max_toi, h) && h.leaf < leaf ==> (best matches Some(
                    b,
                ) && !hit_before(h, b)),
        decreases leaf_count - leaf,
    {
        let ghost old_best = best;
        if accepts(leaf) {
            if box_test(leaf, limit) {
                match leaf_test(leaf, limit) {
                    Some((t, p)) => {
                        let hit = Hit { leaf, toi: t, payload: p };
                        proof {
                            assert(leaf_hit(*leaf_test, leaf, (t, p)));
                            assert(ray_candidate(*accepts, *leaf_test, n, max_toi, hit));
                        }
                        let keep = match &best {
                            Some(prev) => hit_le(prev, &hit),
                            None => false,
                        };
                        if !keep {
                            limit = t;
                            best = Some(hit);
                        }
                        proof {
                            assert forall|h: Hit<P>|
                                #[trigger] ray_candidate(*accepts, *leaf_test, n, max_toi, h) && h.leaf
                                    < leaf + 1 implies (best matches Some(b) && !hit_before(h, b)) by {
                                if h.leaf == leaf {
                                    let lim1 = choose|lim1: u32|
                                        #[trigger] leaf_test.ensures((h.leaf, lim1), Some((h.toi, h.payload)));
                                    assert((h.toi, h.payload) == (t, p));
                                }
                            }
                        }
                    },
                    None => {
                        proof {
                            assert forall|h: Hit<P>|
                                #[trigger] ray_candidate(*accepts, *leaf_test, n, max_toi, h) && h.leaf
                                    < leaf + 1 implies (best matches Some(b) && !hit_before(h, b)) by {
                                if h.leaf == leaf {
                                    let lim1 = choose|lim1: u32|
                                        #[trigger] leaf_test.ensures((h.leaf, lim1), Some((h.toi, h.payload)));
                                    assert(leaf_test.ensures((leaf, limit), None));
                                    assert(spec_key32(limit) < spec_key32(h.toi));
                                }
                            }
                        }
                    },
                }
            } else {
                proof {
                    assert forall|h: Hit<P>|
                        #[trigger] ray_candidate(*accepts, *leaf_test, n, max_toi, h) && h.leaf < leaf
                            + 1 implies (best matches Some(b) && !hit_before(h, b)) by {
                        if h.leaf == leaf {
                            let lim1 = choose|lim1: u32|
                                #[trigger] leaf_test.ensures((h.leaf, lim1), Some((h.toi, h.payload)));
                            assert(box_test.ensures((leaf, limit), false));
                            assert(spec_key32(limit) < spec_key32(h.toi));
                        }
                    }
                }
            }
        } else {
            proof {
                assert forall|h: Hit<P>|
                    #[trigger] ray_candidate(*accepts, *leaf_test, n, max_toi, h) && h.leaf < leaf
                        + 1 implies (best matches Some(b) && !hit_before(h, b)) by {
                    if h.leaf == leaf {
                        assert(accepts.ensures((leaf,), false));
                    }
                }
            }
        }
        leaf = leaf + 1;
    }
    best
}

/// All hits within `max_toi`, scanning leaves `0..leaf_count`, sorted nearest
/// first (then by leaf).
pub fn raycast_all<
    P,
    BT: Fn(usize, u32) -> bool,
    AC: Fn(usize) -> bool,
    LT: Fn(usize, u32) -> Option<(u32, P)>,
>(leaf_count: usize, max_toi: u32, box_test: &BT, accepts: &AC, leaf_test: &LT) -> (r: Vec<Hit<P>>)
    requires
        box_test_ok(*box_test),
        accepts_ok(*accepts),
        leaf_test_ok(*leaf_test),
        box_rejects_soundly(*box_test, *leaf_test),
    ensures
        is_all_hits(*accepts, *leaf_test, leaf_count as nat, max_toi, r@),
{
    let ghost n = leaf_count as nat;
    let mut hits: Vec<Hit<P>> = Vec::new();
    let mut leaf: usize = 0;
    while leaf < leaf_count
        invariant
            0 <= leaf <= leaf_count,
            n == leaf_count,
            box_test_ok(*box_test),
            accepts_ok(*accepts),
            leaf_test_ok(*leaf_test),
            box_rejects_soundly(*box_test, *leaf_test),
            forall|h: Hit<P>|
                #![trigger hits@.contains(h)]
                #![trigger ray_candidate(*accepts, *leaf_test, n, max_toi, h)]
                hits@.contains(h) <==> (ray_candidate(*accepts, *leaf_test, n, max_toi, h) && h.leaf < leaf),
            forall|i: int, j: int| 0 <= i < j < hits@.len() ==> (#[trigger] hits@[i]).leaf < (#[trigger] hits@[j]).leaf,
            forall|i: int| 0 <= i < hits@.len() ==> (#[trigger] hits@[i]).leaf < leaf,
        decreases leaf_count - leaf,
    {
        let ghost old_hits = hits@;
        let ghost mut newh: Option<Hit<P>> = None;
        if accepts(leaf) {
            if box_test(leaf, max_toi) {
                match leaf_test(leaf, max_toi) {
                    Some((t, p)) => {
                        let hit = Hit { leaf, toi: t, payload: p };
                        proof {
                            assert(leaf_hit(*leaf_test, leaf, (t, p)));
                            assert(ray_candidate(*accepts, *leaf_test, n, max_toi, hit));
                        }
                        hits.push(hit);
                        proof {
                            newh = Some(hit);
                            assert forall|h: Hit<P>|
                                #[trigger] ray_candidate(*accepts, *leaf_test, n, max_toi, h) && h.leaf
                                    == leaf implies h == hit by {
                                let lim1 = choose|lim1: u32|
                                    #[trigger] leaf_test.ensures((h.leaf, lim1), Some((h.toi, h.payload)));
                                assert((h.toi, h.payload) == (t, p));
                            }
                        }
                    },
                    None => {
                        proof {
                            assert forall|h: Hit<P>|
                                !(#[trigger] ray_candidate(*accepts, *leaf_test, n, max_toi, h) && h.leaf
                                    == leaf) by {
                                if ray_candidate(*accepts, *leaf_test, n, max_toi, h) && h.leaf == leaf {
                                    let lim1 = choose|lim1: u32|
                                        #[trigger] leaf_test.ensures((h.leaf, lim1), Some((h.toi, h.payload)));
                                    assert(leaf_test.ensures((leaf, max_toi), None));
                                }
                            }
                        }
                    },
                }
            } else {
                proof {
                    assert forall|h: Hit<P>|
                        !(#[trigger] ray_candidate(*accepts, *leaf_test, n, max_toi, h) && h.leaf == leaf) by {
                        if ray_candidate(*accepts, *leaf_test, n, max_toi, h) && h.leaf == leaf {
                            let lim1 = choose|lim1: u32|
                                #[trigger] leaf_test.ensures((h.leaf, lim1), Some((h.toi, h.payload)));
                            assert(box_test.ensures((leaf, max_toi), false));
                        }
                    }
                }
            }
        } else {
            proof {
                assert forall|h: Hit<P>|
                    !(#[trigger] ray_candidate(*accepts, *leaf_test, n, max_toi, h) && h.leaf == leaf) by {
                    if ray_candidate(*accepts, *leaf_test, n, max_toi, h) && h.leaf == leaf {
                        assert(accepts.ensures((leaf,), false));
                    }
                }
            }
        }
        proof {
            assert forall|h: Hit<P>|
                (#[trigger] ray_candidate(*accepts, *leaf_test, n, max_toi, h) && h.leaf == leaf) <==> newh
                    == Some(h) by {}
            assert(hits@ == (match newh {
                Some(x) => old_hits.push(x),
                None => old_hits,
            }));
            assert forall|h: Hit<P>|
                hits@.contains(h) <==> (#[trigger] ray_candidate(*accepts, *leaf_test, n, max_toi, h)
                    && h.leaf < leaf + 1) by {
                if hits@.contains(h) {
                    let i = choose|i: int| 0 <= i < hits@.len() && hits@[i] == h;
                    if i < old_hits.len() {
                        assert(old_hits[i] == h);
                        assert(old_hits.contains(h));
                    }
                }
                if old_hits.contains(h) {
                    let i = choose|i: int| 0 <= i < old_hits.len() && old_hits[i] == h;
                    assert(hits@[i] == h);
                }
                if newh == Some(h) {
                    assert(hits@[hits@.len() - 1] == h);
                }
            }
        }
        leaf = leaf + 1;
    }
    let ghost unsorted = hits@;
    proof {
        assert forall|i: int, j: int|
            0 <= i < unsorted.len() && 0 <= j < unsorted.len() && i != j implies unsorted[i]
            != unsorted[j] by {
            if i < j {
                assert(unsorted[i].leaf < unsorted[j].leaf);
            } else {
                assert(unsorted[j].leaf < unsorted[i].leaf);
            }
        }
        assert(unsorted.no_duplicates());
    }
    sort_hits(&mut hits);
    proof {
        lemma_sorted_all_hits(*accepts, *leaf_test, n, max_toi, unsorted, hits@);
    }
    hits
}

/// Every leaf among `0..leaf_count` whose exact geometry meets the query
/// region, in ascending leaf order: each accepted leaf is first rejected
/// cheaply by `region_test(leaf_bounds[leaf])` (its own bounds against the
/// region) before the exact `overlap_test(leaf)`.
pub fn overlap<
    B: Copy,
    Id,
    RT: Fn(B) -> bool,
    AC: Fn(usize) -> bool,
    OT: Fn(usize) -> Option<Id>,
>(
    leaf_count: usize,
    leaf_bounds: &Vec<B>,
    region_test: &RT,
    accepts: &AC,
    overlap_test: &OT,
) -> (r: Vec<Overlap<Id>>)
    requires
        leaf_bounds@.len() >= leaf_count,
        region_test_ok(*region_test),
        accepts_ok(*accepts),
        overlap_test_ok(*overlap_test),
    ensures
        is_all_overlaps(
            *accepts,
            *region_test,
            leaf_bounds@,
            *overlap_test,
            leaf_count as nat,
            r@,
        ),
{
    let ghost n = leaf_count as nat;
    let mut out: Vec<Overlap<Id>> = Vec::new();
    let mut leaf: usize = 0;
    while leaf < leaf_count
        invariant
            0 <= leaf <= leaf_count,
            n == leaf_count,
            leaf_bounds@.len() >= leaf_count,
            region_test_ok(*region_test),
            accepts_ok(*accepts),
            overlap_test_ok(*overlap_test),
            forall|o: Overlap<Id>|
                #![trigger out@.contains(o)]
                #![trigger overlap_candidate(*accepts, *region_test, leaf_bounds@, *overlap_test, n, o)]
                out@.contains(o) <==> (overlap_candidate(*accepts, *region_test, leaf_bounds@, *overlap_test, n, o) && o.leaf < leaf),
            forall|i: int, j: int| 0 <= i < j < out@.len() ==> (#[trigger] out@[i]).leaf < (#[trigger] out@[j]).leaf,
            forall|i: int| 0 <= i < out@.len() ==> (#[trigger] out@[i]).leaf < leaf,
        decreases leaf_count - leaf,
    {
        let ghost before = out@;
        let ghost mut found: Option<Overlap<Id>> = None;
        if accepts(leaf) && region_test(leaf_bounds[leaf]) {
            match overlap_test(leaf) {
                Some(id) => {
                    let o = Overlap { id, leaf };
                    out.push(o);
                    proof {
                        found = Some(o);
                    }
                },
                None => {},
            }
        }
        proof {
            assert forall|o: Overlap<Id>|
                (#[trigger] overlap_candidate(*accepts, *region_test, leaf_bounds@, *overlap_test, n, o) && o.leaf == leaf) <==> found
                    == Some(o) by {
                if overlap_candidate(*accepts, *region_test, leaf_bounds@, *overlap_test, n, o) && o.leaf == leaf {
                    assert(accepts.ensures((leaf,), true));
                    assert(!region_test.ensures((leaf_bounds@[leaf as int],), false));
                }
            }
            assert forall|o: Overlap<Id>|
                out@.contains(o) <==> (#[trigger] overlap_candidate(*accepts, *region_test, leaf_bounds@, *overlap_test, n, o)
                    && o.leaf < leaf + 1) by {
                if out@.contains(o) {
                    let i = choose|i: int| 0 <= i < out@.len() && out@[i] == o;
                    if i < before.len() {
                        assert(before[i] == o);
                        assert(before.contains(o));
                    }
                }
                if before.contains(o) {
                    let i = choose|i: int| 0 <= i < before.len() && before[i] == o;
                    assert(out@[i] == o);
                }
                if found == Some(o) {
                    assert(out@[out@.len() - 1] == o);
                }
            }
        }
        leaf = leaf + 1;
    }
    out
}

} // verus!
