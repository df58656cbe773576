//! Splitting a group's children for the bounding-volume hierarchy.
//!
//! When a group divides, its bounding box is split in two halves, and each
//! child whose own box fits entirely inside one half moves into the sub-group
//! of that half; a child straddling the split plane stays with the group.
//! The geometric containment tests are real-valued and the caller's; which
//! list each child lands on, given those tests, is decided here.

use vstd::prelude::*;

verus! {

/// Where a child's bounding box lies relative to the split: inside the lower
/// half, inside the upper half, or across the plane.
#[derive(Clone, Copy, Debug, PartialEq, Eq, Structural)]
pub enum Placement {
    Left,
    Right,
    Straddling,
}

/// The children whose placement is `which`, in the order they stand in.
pub open spec fn placed<T>(children: Seq<T>, placements: Seq<Placement>, which: Placement) -> Seq<
    T,
>
    decreases children.len(),
{
    if children.len() == 0 {
        Seq::empty()
    } else {
        let rest = placed(children.drop_first(), placements.drop_first(), which);
        if placements[0] == which {
            seq![children[0]] + rest
        } else {
            rest
        }
    }
}

/// Partitioning loses no child and invents none: the three lists together
/// hold exactly the children that went in, so the divided group still covers
/// the same shapes as the undivided one.
pub proof fn lemma_partition_preserves_children<T>(children: Seq<T>, placements: Seq<Placement>)
    requires
        placements.len() == children.len(),
    ensures
        (placed(children, placements, Placement::Left) + placed(
            children,
            placements,
            Placement::Right,
        ) + placed(children, placements, Placement::Straddling)).to_multiset()
            =~= children.to_multiset(),
    decreases children.len(),
{
    broadcast use vstd::multiset::group_multiset_axioms;

    let left = placed(children, placements, Placement::Left);
    let right = placed(children, placements, Placement::Right);
    let stay = placed(children, placements, Placement::Straddling);
    if children.len() == 0 {
        assert(left + right + stay =~= Seq::<T>::empty());
        vstd::seq_lib::lemma_multiset_commutative(Seq::<T>::empty(), Seq::<T>::empty());
        assert((left + right + stay).to_multiset().len() == 0);
        assert(children.to_multiset().len() == 0) by {
            children.to_multiset_ensures();
        }
        assert((left + right + stay).to_multiset() =~= children.to_multiset());
    } else {
        let c = children[0];
        let rest = children.drop_first();
        let pl_rest = placements.drop_first();
        lemma_partition_preserves_children(rest, pl_rest);
        let left_rest = placed(rest, pl_rest, Placement::Left);
        let right_rest = placed(rest, pl_rest, Placement::Right);
        let stay_rest = placed(rest, pl_rest, Placement::Straddling);
        vstd::seq_lib::lemma_multiset_commutative(left_rest, right_rest);
        vstd::seq_lib::lemma_multiset_commutative(left_rest + right_rest, stay_rest);
        assert(children =~= seq![c] + rest);
        vstd::seq_lib::lemma_multiset_commutative(seq![c], rest);
        if placements[0] == Placement::Left {
            assert(left + right + stay =~= seq![c] + (left_rest + right_rest + stay_rest));
            vstd::seq_lib::lemma_multiset_commutative(
                seq![c],
                left_rest + right_rest + stay_rest,
            );
        } else if placements[0] == Placement::Right {
            assert(left + right + stay =~= left_rest + (seq![c] + right_rest) + stay_rest);
            vstd::seq_lib::lemma_multiset_commutative(seq![c], right_rest);
            vstd::seq_lib::lemma_multiset_commutative(left_rest, seq![c] + right_rest);
            vstd::seq_lib::lemma_multiset_commutative(
                left_rest + (seq![c] + right_rest),
                stay_rest,
            );
        } else {
            assert(left + right + stay =~= left_rest + right_rest + (seq![c] + stay_rest));
            vstd::seq_lib::lemma_multiset_commutative(seq![c], stay_rest);
            vstd::seq_lib::lemma_multiset_commutative(
                left_rest + right_rest,
                seq![c] + stay_rest,
            );
        }
    }
}

/// Splits a group's child list by the given placements: the children bound
/// for the lower half, those for the upper half, and those that stay with the
/// group, each list keeping the order the children arrived in.
pub fn partition_children<T>(children: Vec<T>, placements: &Vec<Placement>) -> (r: (
    Vec<T>,
    Vec<T>,
    Vec<T>,
))
    requires
        placements@.len() == children@.len(),
    ensures
        r.0@ == placed(children@, placements@, Placement::Left),
        r.1@ == placed(children@, placements@, Placement::Right),
        r.2@ == placed(children@, placements@, Placement::Straddling),
{
    let ghost orig = children@;
    let ghost pl = placements@;
    let mut rem = children;
    let mut left: Vec<T> = Vec::new();
    let mut right: Vec<T> = Vec::new();
    let mut stay: Vec<T> = Vec::new();
    let mut i: usize = 0;
    let n: usize = rem.len();
    proof {
        assert(orig.len() == n);
        assert(orig.skip(0) =~= orig);
        assert(pl.skip(0) =~= pl);
        assert(left@ + placed(orig, pl, Placement::Left) =~= placed(orig, pl, Placement::Left));
        assert(right@ + placed(orig, pl, Placement::Right) =~= placed(orig, pl, Placement::Right));
        assert(stay@ + placed(orig, pl, Placement::Straddling) =~= placed(
            orig,
            pl,
            Placement::Straddling,
        ));
    }
    while rem.len() > 0
        invariant
            i + rem@.len() == orig.len(),
            orig.len() <= usize::MAX,
            placements@ == pl,
            pl.len() == orig.len(),
            rem@ == orig.skip(i as int),
            placed(orig, pl, Placement::Left) == left@ + placed(
                orig.skip(i as int),
                pl.skip(i as int),
                Placement::Left,
            ),
            placed(orig, pl, Placement::Right) == right@ + placed(
                orig.skip(i as int),
                pl.skip(i as int),
                Placement::Right,
            ),
            placed(orig, pl, Placement::Straddling) == stay@ + placed(
                orig.skip(i as int),
                pl.skip(i as int),
                Placement::Straddling,
            ),
        decreases rem@.len(),
    {
        proof {
            assert(orig.skip(i as int).drop_first() =~= orig.skip(i as int + 1));
            assert(pl.skip(i as int).drop_first() =~= pl.skip(i as int + 1));
            assert(orig.skip(i as int)[0] == orig[i as int]);
            assert(pl.skip(i as int)[0] == pl[i as int]);
        }
        let child = rem.remove(0);
        proof {
            assert(rem@ =~= orig.skip(i as int + 1));
        }
        let p = placements[i];
        match p {
            Placement::Left => {
                left.push(child);
                proof {
                    assert(left@.drop_last() + seq![orig[i as int]] =~= left@);
                    assert(placed(orig, pl, Placement::Left) =~= left@ + placed(
                        orig.skip(i as int + 1),
                        pl.skip(i as int + 1),
                        Placement::Left,
                    ));
                }
            },
            Placement::Right => {
                right.push(child);
                proof {
                    assert(right@.drop_last() + seq![orig[i as int]] =~= right@);
                    assert(placed(orig, pl, Placement::Right) =~= right@ + placed(
                        orig.skip(i as int + 1),
                        pl.skip(i as int + 1),
                        Placement::Right,
                    ));
                }
            },
            Placement::Straddling => {
                stay.push(child);
                proof {
                    assert(stay@.drop_last() + seq![orig[i as int]] =~= stay@);
                    assert(placed(orig, pl, Placement::Straddling) =~= stay@ + placed(
                        orig.skip(i as int + 1),
                        pl.skip(i as int + 1),
                        Placement::Straddling,
                    ));
                }
            },
        }
        i = i + 1;
    }
    proof {
        assert(orig.skip(i as int) =~= Seq::<T>::empty());
    }
    (left, right, stay)
}

} // verus!
