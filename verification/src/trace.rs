//! Choosing among the hits along a ray.
//!
//! The hit that counts for an object is the first one of its hit pool that
//! lies in front of the ray's origin.  The pool is kept in order of distance
//! (as [`crate::surfaces`] and [`crate::csg`] produce it), and on such a
//! pool that hit is the nearest one in front of the origin
//! ([`lemma_first_hit_is_nearest`]).  Among the objects
//! of a scene the nearest such hit wins (the earliest object on a tie), and
//! a shadow ray is blocked when some object is hit between the origin and
//! the light.  Distances are encodings of `f32` values compared as IEEE 754
//! does (see [`crate::float_bits`]).
use vstd::prelude::*;
use crate::csg::{HitRecord, sorted_from};
use crate::float_bits::{ZERO_BITS, bits_lt, is_nan, lt, order_key};

verus! {

/// The first hit of a hit pool that lies in front of the ray's origin
/// (distance greater than zero), with its position in the pool.
pub fn first_hit(hits: &Vec<HitRecord>) -> (r: Option<(HitRecord, usize)>)
    ensures
        r is None <==> forall|i: int| 0 <= i < hits.len() ==> !lt(ZERO_BITS, #[trigger] hits[i].distance),
        r matches Some((h, i)) ==> i < hits.len() && h == hits[i as int] && lt(ZERO_BITS, h.distance)
            && forall|k: int| 0 <= k < i ==> !lt(ZERO_BITS, #[trigger] hits[k].distance),
{
    let mut i: usize = 0;
    while i < hits.len()
        invariant
            i <= hits.len(),
            forall|k: int| 0 <= k < i ==> !lt(ZERO_BITS, #[trigger] hits[k].distance),
        decreases hits.len() - i,
    {
        if bits_lt(ZERO_BITS, hits[i].distance) {
            return Some((hits[i], i));
        }
        i = i + 1;
    }
    None
}

/// On a pool in order of distance, the first hit in front of the origin is
/// the nearest hit in front of the origin: no hit with a positive distance
/// is nearer.
pub proof fn lemma_first_hit_is_nearest(hits: Seq<HitRecord>, i: int)
    requires
        sorted_from(hits, 0),
        0 <= i < hits.len(),
        lt(ZERO_BITS, hits[i].distance),
        forall|k: int| 0 <= k < i ==> !lt(ZERO_BITS, #[trigger] hits[k].distance),
    ensures
        forall|k: int|
            0 <= k < hits.len() && lt(ZERO_BITS, #[trigger] hits[k].distance) ==> order_key(
                hits[i].distance,
            ) <= order_key(hits[k].distance),
{
    assert forall|k: int|
        0 <= k < hits.len() && lt(ZERO_BITS, #[trigger] hits[k].distance) implies order_key(
            hits[i].distance,
        ) <= order_key(hits[k].distance) by {
        if k < i {
            assert(!lt(ZERO_BITS, hits[k].distance));
        }
    }
}

/// Whether `h` may be taken as the nearest hit.
pub open spec fn acceptable(h: HitRecord, accept_exiting: bool) -> bool {
    accept_exiting || h.entering
}

/// Whether `h` is strictly nearer than the current choice (or there is none).
pub open spec fn nearer_than(h: HitRecord, best: Option<(HitRecord, int)>) -> bool {
    match best {
        Some((b, _)) => lt(h.distance, b.distance),
        None => true,
    }
}

/// The nearest acceptable hit among the first `n` objects' hits: a hit
/// replaces the current choice only when strictly nearer.
pub open spec fn nearest_upto(hits: Seq<Option<HitRecord>>, accept_exiting: bool, n: int) -> Option<
    (HitRecord, int),
>
    decreases n,
{
    if n <= 0 {
        None
    } else {
        let best = nearest_upto(hits, accept_exiting, n - 1);
        match hits[n - 1] {
            Some(h) => if acceptable(h, accept_exiting) && nearer_than(h, best) {
                Some((h, n - 1))
            } else {
                best
            },
            None => best,
        }
    }
}

/// The nearest acceptable hit of all objects, with the index of its object.
pub open spec fn nearest(hits: Seq<Option<HitRecord>>, accept_exiting: bool) -> Option<(HitRecord, int)> {
    nearest_upto(hits, accept_exiting, hits.len() as int)
}

/// Picks, among the objects' first hits, the nearest one and its object's
/// index.  Unless `accept_exiting`, only hits where the ray enters an object
/// are considered (photons that were not transmitted).
pub fn nearest_hit(hits: &Vec<Option<HitRecord>>, accept_exiting: bool) -> (r: Option<(HitRecord, usize)>)
    ensures
        r matches Some((h, i)) ==> nearest(hits@, accept_exiting) == Some((h, i as int)),
        r is None ==> nearest(hits@, accept_exiting) is None,
{
    let mut best: Option<(HitRecord, usize)> = None;
    let mut i: usize = 0;
    while i < hits.len()
        invariant
            i <= hits.len(),
            best matches Some((h, k)) ==> nearest_upto(hits@, accept_exiting, i as int) == Some(
                (h, k as int),
            ),
            best is None ==> nearest_upto(hits@, accept_exiting, i as int) is None,
        decreases hits.len() - i,
    {
        match hits[i] {
            Some(h) => {
                let closer = match best {
                    None => true,
                    Some((b, _)) => bits_lt(h.distance, b.distance),
                };
                if (accept_exiting || h.entering) && closer {
                    best = Some((h, i));
                }
            },
            None => {},
        }
        i = i + 1;
    }
    best
}

/// With no NaN distance among the acceptable hits, the chosen hit is one of
/// the nearest: no acceptable hit is nearer, every acceptable hit of an
/// earlier object is strictly farther, and nothing is chosen only when no
/// hit is acceptable.
pub proof fn lemma_nearest_is_minimal(hits: Seq<Option<HitRecord>>, accept_exiting: bool, n: int)
    requires
        0 <= n <= hits.len(),
        forall|i: int|
            0 <= i < n && (#[trigger] hits[i] matches Some(h) && acceptable(h, accept_exiting))
                ==> !is_nan(hits[i]->0.distance),
    ensures
        nearest_upto(hits, accept_exiting, n) is None <==> forall|i: int|
            0 <= i < n ==> !(#[trigger] hits[i] matches Some(h) && acceptable(h, accept_exiting)),
        nearest_upto(hits, accept_exiting, n) matches Some((b, k)) ==> {
            &&& 0 <= k < n
            &&& hits[k] == Some(b)
            &&& acceptable(b, accept_exiting)
            &&& forall|i: int|
                0 <= i < n && (#[trigger] hits[i] matches Some(h) && acceptable(h, accept_exiting))
                    ==> order_key(b.distance) <= order_key(hits[i]->0.distance)
            &&& forall|i: int|
                0 <= i < k && (#[trigger] hits[i] matches Some(h) && acceptable(h, accept_exiting))
                    ==> order_key(b.distance) < order_key(hits[i]->0.distance)
        },
    decreases n,
{
    if n > 0 {
        lemma_nearest_is_minimal(hits, accept_exiting, n - 1);
    }
}

/// Whether some object's first hit lies strictly between `near` and `limit`.
pub open spec fn blocked(hits: Seq<Option<u32>>, near: u32, limit: u32) -> bool {
    exists|i: int|
        0 <= i < hits.len() && (#[trigger] hits[i] matches Some(d) && lt(near, d) && lt(d, limit))
}

/// Whether a shadow ray is blocked: some object's first hit distance lies
/// strictly between `near` (the smallest distance that counts) and `limit`
/// (the distance to the light).
pub fn shadow_hit(hits: &Vec<Option<u32>>, near: u32, limit: u32) -> (r: bool)
    ensures
        r == blocked(hits@, near, limit),
{
    let mut i: usize = 0;
    while i < hits.len()
        invariant
            i <= hits.len(),
            forall|k: int|
                0 <= k < i ==> !(#[trigger] hits@[k] matches Some(d) && lt(near, d) && lt(d, limit)),
        decreases hits.len() - i,
    {
        match hits[i] {
            Some(d) => {
                if bits_lt(near, d) && bits_lt(d, limit) {
                    assert(hits@[i as int] matches Some(d) && lt(near, d) && lt(d, limit));
                    return true;
                }
            },
            None => {},
        }
        i = i + 1;
    }
    false
}

} // verus!
