//! Query results and the order they are selected and sorted by.
use crate::order::{spec_key32, total_key_f32};
use core::cmp::Ordering;
use vstd::prelude::*;

verus! {

/// One query hit: the leaf that was hit, its time of impact (the bit pattern
/// of the scalar distance along the query), and whatever the caller's narrow
/// test attached to it (an id, a point, a normal, a sub-object).
#[derive(Clone, Copy, Debug)]
pub struct Hit<P> {
    /// The leaf index within the provider (`0..leaf_count`).
    pub leaf: usize,
    /// The bit pattern of the time of impact.
    pub toi: u32,
    /// The caller's payload for this hit.
    pub payload: P,
}

/// A single overlap-query result: an object that intersects the query region.
#[derive(Clone, Copy, Debug)]
pub struct Overlap<Id> {
    /// The provider's identity for the object.
    pub id: Id,
    /// The leaf index within the provider. Also the order results come in.
    pub leaf: usize,
}

/// `a` strictly precedes `b`: by time of impact in the total order, then by
/// leaf index.
pub open spec fn hit_before<P>(a: Hit<P>, b: Hit<P>) -> bool {
    ||| spec_key32(a.toi) < spec_key32(b.toi)
    ||| (spec_key32(a.toi) == spec_key32(b.toi) && a.leaf < b.leaf)
}

/// The total order nearest selection and all-hits sorting go by: time of
/// impact in the IEEE total order, then leaf index.
pub fn hit_ordering<P>(a: &Hit<P>, b: &Hit<P>) -> (o: Ordering)
    ensures
        (o == Ordering::Less) == hit_before(*a, *b),
        (o == Ordering::Greater) == hit_before(*b, *a),
        (o == Ordering::Equal) == (spec_key32(a.toi) == spec_key32(b.toi) && a.leaf == b.leaf),
{
    let ka = total_key_f32(a.toi);
    let kb = total_key_f32(b.toi);
    if ka < kb {
        Ordering::Less
    } else if kb < ka {
        Ordering::Greater
    } else if a.leaf < b.leaf {
        Ordering::Less
    } else if b.leaf < a.leaf {
        Ordering::Greater
    } else {
        Ordering::Equal
    }
}

/// Whether `a` comes no later than `b` in the hit order.
pub fn hit_le<P>(a: &Hit<P>, b: &Hit<P>) -> (r: bool)
    ensures
        r == !hit_before(*b, *a),
{
    let ka = total_key_f32(a.toi);
    let kb = total_key_f32(b.toi);
    ka < kb || (ka == kb && a.leaf <= b.leaf)
}

/// Sorts hits by `hit_ordering`.
///
/// Trusted: this calls `slice::sort_by` from std with the verified
/// `hit_ordering` as the comparison. The contract claims what its
/// documentation says of a sort under a total order: the result is a
/// permutation of the input, and no element precedes an earlier one.
#[verifier::external_body]
pub(crate) fn sort_hits<P>(v: &mut Vec<Hit<P>>)
    ensures
        final(v)@.to_multiset() == old(v)@.to_multiset(),
        final(v)@.len() == old(v)@.len(),
        forall|i: int, j: int| 0 <= i < j < final(v)@.len() ==> !hit_before(final(v)@[j], final(v)@[i]),
{
    v.sort_by(hit_ordering);
}

/// Sorts overlap results by leaf index.
///
/// Trusted: this calls `slice::sort_by_key` from std, keyed by the `leaf`
/// field. The contract claims what its documentation says of a sort: the
/// result is a permutation of the input, ordered by leaf.
#[verifier::external_body]
pub(crate) fn sort_overlaps<Id>(v: &mut Vec<Overlap<Id>>)
    ensures
        final(v)@.to_multiset() == old(v)@.to_multiset(),
        final(v)@.len() == old(v)@.len(),
        forall|i: int, j: int| 0 <= i < j < final(v)@.len() ==> final(v)@[i].leaf <= final(v)@[j].leaf,
{
    v.sort_by_key(|o| o.leaf);
}

} // verus!
