//! Constructive solid geometry: the rule that decides which intersections of
//! the two subtrees survive a boolean operation, and the filter that walks a
//! merged, sorted intersection list applying it.
//!
//! The filter needs of each intersection only whether it belongs to the left
//! subtree. Membership is by shape identity, recursing through groups and
//! nested combinations; a caller hands in either the left subtree's identity
//! structure or the resolved flags aligned with the list.

use crate::intersection::Intersection;
use vstd::prelude::*;

verus! {

/// The identity structure of a shape subtree: which shape identities stand
/// where. This is all the filter needs of a scene graph to resolve whether a
/// hit belongs to the left subtree.
pub enum ShapeTree {
    /// A primitive.
    Leaf { id: i32 },
    /// A group and its children.
    Group { id: i32, children: Vec<ShapeTree> },
    /// A boolean combination and its two subtrees.
    Csg { id: i32, left: Box<ShapeTree>, right: Box<ShapeTree> },
}

impl ShapeTree {
    /// The subtree holds the given identity, at its root or below.
    pub open spec fn contains_id(self, id: i32) -> bool
        decreases self, 0int,
    {
        match self {
            ShapeTree::Leaf { id: own } => own == id,
            ShapeTree::Group { id: own, children } => own == id || seq_contains_id(
                children@,
                id,
            ),
            ShapeTree::Csg { id: own, left, right } => own == id || left.contains_id(id)
                || right.contains_id(id),
        }
    }
}

/// Some tree of the sequence holds the given identity.
pub open spec fn seq_contains_id(s: Seq<ShapeTree>, id: i32) -> bool
    decreases s, 1int,
{
    if s.len() == 0 {
        false
    } else {
        s[0].contains_id(id) || seq_contains_id(s.drop_first(), id)
    }
}

/// What `seq_contains_id` says of the trees from `from` on: one of them holds
/// the identity.
pub proof fn lemma_seq_contains_id(s: Seq<ShapeTree>, from: int, id: i32)
    requires
        0 <= from <= s.len(),
    ensures
        seq_contains_id(s.skip(from), id) == exists|j: int|
            from <= j < s.len() && #[trigger] s[j].contains_id(id),
    decreases s.len() - from,
{
    if from < s.len() {
        lemma_seq_contains_id(s, from + 1, id);
        assert(s.skip(from).drop_first() =~= s.skip(from + 1));
        assert(s.skip(from)[0] == s[from]);
        if s[from].contains_id(id) {
            assert(seq_contains_id(s.skip(from), id));
        }
    }
}

impl ShapeTree {
    /// Membership by identity, recursing through groups and boolean
    /// combinations: how a hit is attributed to the left or the right subtree.
    pub fn includes(&self, id: i32) -> (r: bool)
        ensures
            r == self.contains_id(id),
        decreases *self, 0int,
    {
        match self {
            ShapeTree::Leaf { id: own } => *own == id,
            ShapeTree::Group { id: own, children } => {
                proof {
                    assert(decreases_to!(*self, 0int => *children, children@.len() as int));
                    assert(children@.skip(0) =~= children@);
                }
                *own == id || includes_from(children, 0, id)
            },
            ShapeTree::Csg { id: own, left, right } => {
                *own == id || left.includes(id) || right.includes(id)
            },
        }
    }
}

/// Whether one of the trees from `from` on holds the identity.
fn includes_from(children: &Vec<ShapeTree>, from: usize, id: i32) -> (r: bool)
    requires
        from <= children@.len(),
    ensures
        r == seq_contains_id(children@.skip(from as int), id),
    decreases *children, children@.len() - from,
{
    if from == children.len() {
        proof {
            assert(children@.skip(from as int) =~= Seq::<ShapeTree>::empty());
        }
        false
    } else {
        proof {
            broadcast use vstd::std_specs::vec::axiom_vec_index_decreases;

            assert(decreases_to!(*children, children@.len() - from => children@[from as int], 0int));
            assert(children@.skip(from as int)[0] == children@[from as int]);
            assert(children@.skip(from as int).drop_first() =~= children@.skip(from as int + 1));
        }
        if children[from].includes(id) {
            true
        } else {
            includes_from(children, from + 1, id)
        }
    }
}

/// The keep-rule of the boolean operations: `op` is the operation's name,
/// `lhit` says whether the hit belongs to the left subtree, `inl` and `inr`
/// whether the ray is currently inside the left and the right subtree. A name
/// that is none of the three operations allows nothing.
pub open spec fn intersection_allowed_spec(op: Seq<char>, lhit: bool, inl: bool, inr: bool) -> bool {
    if op == "union"@ {
        (lhit && !inr) || (!lhit && !inl)
    } else if op == "intersection"@ {
        (lhit && inr) || (!lhit && inl)
    } else if op == "difference"@ {
        (lhit && !inr) || (!lhit && inl)
    } else {
        false
    }
}

/// Decides whether a hit is kept, given the operation and the state of the
/// walk.
pub fn intersection_allowed(operation: String, left_hit: bool, inside_left_hit: bool, inside_right_hit: bool) -> (r: bool)
    ensures
        r == intersection_allowed_spec(operation@, left_hit, inside_left_hit, inside_right_hit),
{
    if operation == "union".to_owned() {
        (left_hit && !inside_right_hit) || (!left_hit && !inside_left_hit)
    } else if operation == "intersection".to_owned() {
        (left_hit && inside_right_hit) || (!left_hit && inside_left_hit)
    } else if operation == "difference".to_owned() {
        (left_hit && !inside_right_hit) || (!left_hit && inside_left_hit)
    } else {
        false
    }
}

/// The intersections that the walk keeps, starting from state (`inl`, `inr`).
pub open spec fn csg_filter(
    op: Seq<char>,
    xs: Seq<Intersection>,
    left_hit: Seq<bool>,
    inl: bool,
    inr: bool,
) -> Seq<Intersection>
    decreases xs.len(),
{
    if xs.len() == 0 {
        Seq::empty()
    } else {
        let keep = intersection_allowed_spec(op, left_hit[0], inl, inr);
        let next_inl = if left_hit[0] {
            !inl
        } else {
            inl
        };
        let next_inr = if left_hit[0] {
            inr
        } else {
            !inr
        };
        let rest = csg_filter(op, xs.drop_first(), left_hit.drop_first(), next_inl, next_inr);
        if keep {
            seq![xs[0]] + rest
        } else {
            rest
        }
    }
}

/// Walks a merged, sorted intersection list and keeps the hits the operation
/// allows. `left_hit[i]` says whether `intersections[i]` belongs to the left
/// subtree; the walk starts outside both subtrees.
pub fn filter_intersections(
    operation: String,
    intersections: &Vec<Intersection>,
    left_hit: &Vec<bool>,
) -> (r: Vec<Intersection>)
    requires
        left_hit@.len() == intersections@.len(),
    ensures
        r@ == csg_filter(operation@, intersections@, left_hit@, false, false),
{
    let ghost full = csg_filter(operation@, intersections@, left_hit@, false, false);
    let mut inside_left_hit = false;
    let mut inside_right_hit = false;
    let mut result: Vec<Intersection> = Vec::new();
    let mut i: usize = 0;
    proof {
        assert(intersections@.skip(0) =~= intersections@);
        assert(left_hit@.skip(0) =~= left_hit@);
        assert(result@ + full =~= full);
    }
    while i < intersections.len()
        invariant
            i <= intersections@.len(),
            left_hit@.len() == intersections@.len(),
            full == result@ + csg_filter(
                operation@,
                intersections@.skip(i as int),
                left_hit@.skip(i as int),
                inside_left_hit,
                inside_right_hit,
            ),
        decreases intersections@.len() - i,
    {
        proof {
            assert(intersections@.skip(i as int).drop_first() =~= intersections@.skip(i as int + 1));
            assert(left_hit@.skip(i as int).drop_first() =~= left_hit@.skip(i as int + 1));
            assert(intersections@.skip(i as int)[0] == intersections@[i as int]);
            assert(left_hit@.skip(i as int)[0] == left_hit@[i as int]);
        }
        let lh = left_hit[i];
        if intersection_allowed(operation.clone(), lh, inside_left_hit, inside_right_hit) {
            result.push(intersections[i]);
            proof {
                assert(result@.drop_last() + seq![intersections@[i as int]] =~= result@);
            }
        }
        if lh {
            inside_left_hit = !inside_left_hit;
        } else {
            inside_right_hit = !inside_right_hit;
        }
        proof {
            assert(full == result@ + csg_filter(
                operation@,
                intersections@.skip(i as int + 1),
                left_hit@.skip(i as int + 1),
                inside_left_hit,
                inside_right_hit,
            )) by {
                assert((result@ + seq![intersections@[i as int]]) + csg_filter(
                    operation@,
                    intersections@.skip(i as int + 1),
                    left_hit@.skip(i as int + 1),
                    inside_left_hit,
                    inside_right_hit,
                ) =~= result@ + (seq![intersections@[i as int]] + csg_filter(
                    operation@,
                    intersections@.skip(i as int + 1),
                    left_hit@.skip(i as int + 1),
                    inside_left_hit,
                    inside_right_hit,
                )));
            }
        }
        i = i + 1;
    }
    proof {
        assert(intersections@.skip(i as int) =~= Seq::<Intersection>::empty());
        assert(left_hit@.skip(i as int) =~= Seq::<bool>::empty());
        assert(full =~= result@);
    }
    result
}

/// The left-membership flags of a list of intersections: flag `i` says
/// whether the shape behind intersection `i` belongs to the left subtree.
pub open spec fn left_flags(xs: Seq<Intersection>, left: ShapeTree) -> Seq<bool> {
    Seq::new(xs.len(), |i: int| left.contains_id(xs[i].object_id))
}

/// Filters a merged, sorted intersection list against the left subtree's
/// identity structure: membership is resolved here, then the keep-rule walk
/// runs as in `filter_intersections`.
pub fn filter_intersections_of(
    operation: String,
    intersections: &Vec<Intersection>,
    left: &ShapeTree,
) -> (r: Vec<Intersection>)
    ensures
        r@ == csg_filter(
            operation@,
            intersections@,
            left_flags(intersections@, *left),
            false,
            false,
        ),
{
    let mut flags: Vec<bool> = Vec::new();
    let mut i: usize = 0;
    while i < intersections.len()
        invariant
            i <= intersections@.len(),
            flags@ =~= left_flags(intersections@, *left).take(i as int),
        decreases intersections@.len() - i,
    {
        flags.push(left.includes(intersections[i].object_id));
        i = i + 1;
    }
    proof {
        assert(flags@ =~= left_flags(intersections@, *left));
    }
    filter_intersections(operation, intersections, &flags)
}

} // verus!
