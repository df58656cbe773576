//! The world-level shadow decision.
//!
//! For one light, the world casts a ray from the shaded point toward the
//! light and asks whether the nearest intersection in front of the point lies
//! strictly before the light and belongs to a shape that casts shadows. The
//! geometry (building the ray, measuring the distance) is real-valued; the
//! decision reads only the order keys of the distances and the shapes'
//! `casts_shadow` flags, and is made here.

use crate::intersection::Intersection;
use crate::intersection::sorted_by_t;
use vstd::prelude::*;

verus! {

/// The shadow rule: the nearest intersection with positive `t` shadows the
/// point iff it lies nearer than the light and its shape casts shadows; with
/// nothing in front of the point the light is visible.
pub open spec fn shadow_decision(xs: Seq<Intersection>, casts: Seq<bool>, distance: i64) -> bool
    decreases xs.len(),
{
    if xs.len() == 0 {
        false
    } else if xs[0].t > 0 {
        xs[0].t < distance && casts[0]
    } else {
        shadow_decision(xs.drop_first(), casts.drop_first(), distance)
    }
}

/// Decides whether the point the intersections were cast from lies in shadow
/// with respect to one light. `intersections` is the world's sorted
/// intersection list for the ray toward the light, `casts_shadow[i]` the flag
/// of the shape behind `intersections[i]`, and `distance` the order key of
/// the distance to the light.
pub fn is_shadowed(
    intersections: &Vec<Intersection>,
    casts_shadow: &Vec<bool>,
    distance: i64,
) -> (r: bool)
    requires
        sorted_by_t(intersections@),
        casts_shadow@.len() == intersections@.len(),
    ensures
        r == shadow_decision(intersections@, casts_shadow@, distance),
{
    let mut i: usize = 0;
    proof {
        assert(intersections@.skip(0) =~= intersections@);
        assert(casts_shadow@.skip(0) =~= casts_shadow@);
    }
    while i < intersections.len()
        invariant
            i <= intersections@.len(),
            casts_shadow@.len() == intersections@.len(),
            shadow_decision(intersections@, casts_shadow@, distance) == shadow_decision(
                intersections@.skip(i as int),
                casts_shadow@.skip(i as int),
                distance,
            ),
        decreases intersections@.len() - i,
    {
        proof {
            assert(intersections@.skip(i as int)[0] == intersections@[i as int]);
            assert(casts_shadow@.skip(i as int)[0] == casts_shadow@[i as int]);
            assert(intersections@.skip(i as int).drop_first() =~= intersections@.skip(i as int + 1));
            assert(casts_shadow@.skip(i as int).drop_first() =~= casts_shadow@.skip(i as int + 1));
        }
        if intersections[i].t > 0 {
            return intersections[i].t < distance && casts_shadow[i];
        }
        i = i + 1;
    }
    proof {
        assert(intersections@.skip(i as int) =~= Seq::<Intersection>::empty());
    }
    false
}

/// Shadow law, absence direction: when no intersection lies strictly between
/// the point and the light with a shadow-casting shape behind it, the light
/// is visible.
pub proof fn lemma_unoccluded_point_not_shadowed(
    xs: Seq<Intersection>,
    casts: Seq<bool>,
    distance: i64,
)
    requires
        casts.len() == xs.len(),
        forall|i: int| 0 <= i < xs.len() ==> !(0 < #[trigger] xs[i].t < distance && casts[i]),
    ensures
        !shadow_decision(xs, casts, distance),
    decreases xs.len(),
{
    if xs.len() > 0 && !(xs[0].t > 0) {
        assert forall|i: int|
            0 <= i < xs.drop_first().len() implies !(0 < #[trigger] xs.drop_first()[i].t < distance
            && casts.drop_first()[i]) by {
            assert(xs.drop_first()[i] == xs[i + 1]);
            assert(casts.drop_first()[i] == casts[i + 1]);
        }
        lemma_unoccluded_point_not_shadowed(xs.drop_first(), casts.drop_first(), distance);
    }
}

/// Shadow law, presence direction: adding a shadow-casting occluder strictly
/// between the point and the light, in front of everything the ray already
/// met in front of the point, makes the shadow test true.
pub proof fn lemma_added_occluder_shadows(
    xs: Seq<Intersection>,
    casts: Seq<bool>,
    distance: i64,
    occluder: Intersection,
    p: int,
)
    requires
        casts.len() == xs.len(),
        0 <= p <= xs.len(),
        0 < occluder.t < distance,
        forall|j: int| 0 <= j < p ==> #[trigger] xs[j].t <= 0,
    ensures
        shadow_decision(xs.insert(p, occluder), casts.insert(p, true), distance),
    decreases p,
{
    let nxs = xs.insert(p, occluder);
    let ncasts = casts.insert(p, true);
    if p == 0 {
        assert(nxs[0] == occluder);
        assert(ncasts[0] == true);
    } else {
        assert(nxs[0] == xs[0]);
        assert(xs[0].t <= 0);
        lemma_added_occluder_shadows(xs.drop_first(), casts.drop_first(), distance, occluder, p - 1);
        assert(nxs.drop_first() =~= xs.drop_first().insert(p - 1, occluder));
        assert(ncasts.drop_first() =~= casts.drop_first().insert(p - 1, true));
    }
}

} // verus!
