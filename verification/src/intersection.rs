//! Intersection records, hit selection and the refractive container stack.
//!
//! A ray's intersections carry a real-valued distance `t`; every decision made
//! here reads `t` only through comparisons against zero and against other
//! `t` values. The records therefore carry an integer key for `t`: any
//! encoding that preserves the order of the real distances and maps positive
//! distances to positive keys (the caller supplies it; for finite IEEE
//! doubles the sign-magnitude bit pattern is such an encoding).

use vstd::prelude::*;

verus! {

/// One ray-shape intersection: the order key of the real distance `t`, and
/// the stable identity of the shape that was hit.
#[derive(Clone, Copy, Debug, PartialEq, Eq, Structural)]
pub struct Intersection {
    /// Order key of the distance along the ray; positive iff the real
    /// distance is positive.
    pub t: i64,
    /// Identity of the intersected shape.
    pub object_id: i32,
}

impl Intersection {
    /// Builds an intersection record.
    pub fn new(t: i64, object_id: i32) -> (r: Intersection)
        ensures
            r.t == t,
            r.object_id == object_id,
    {
        Intersection { t, object_id }
    }
}

/// The list is sorted by ascending `t`.
pub open spec fn sorted_by_t(s: Seq<Intersection>) -> bool {
    forall|i: int, j: int| 0 <= i < j < s.len() ==> s[i].t <= s[j].t
}

/// `h` lies on the list, is in front of the ray's origin, and no other
/// intersection in front of the origin is nearer.
pub open spec fn is_min_positive_hit(s: Seq<Intersection>, h: Intersection) -> bool {
    &&& h.t > 0
    &&& s.contains(h)
    &&& forall|j: int| 0 <= j < s.len() && s[j].t > 0 ==> h.t <= #[trigger] s[j].t
}

/// The first intersection of the list with positive `t`.
pub open spec fn first_hit(s: Seq<Intersection>) -> Option<Intersection>
    decreases s.len(),
{
    if s.len() == 0 {
        None
    } else if s[0].t > 0 {
        Some(s[0])
    } else {
        first_hit(s.drop_first())
    }
}

/// Selects the hit: the first intersection with positive `t`, which on a
/// sorted list is the one with the least positive `t`; `None` when every
/// intersection lies behind the ray's origin.
pub fn hit(intersections: &Vec<Intersection>) -> (r: Option<Intersection>)
    requires
        sorted_by_t(intersections@),
    ensures
        r == first_hit(intersections@),
        match r {
            Some(h) => is_min_positive_hit(intersections@, h),
            None => forall|i: int|
                0 <= i < intersections@.len() ==> #[trigger] intersections@[i].t <= 0,
        },
{
    proof {
        assert(intersections@.skip(0) =~= intersections@);
    }
    let mut i: usize = 0;
    while i < intersections.len()
        invariant
            i <= intersections@.len(),
            sorted_by_t(intersections@),
            forall|k: int| 0 <= k < i ==> #[trigger] intersections@[k].t <= 0,
            first_hit(intersections@) == first_hit(intersections@.skip(i as int)),
        decreases intersections@.len() - i,
    {
        proof {
            assert(intersections@.skip(i as int)[0] == intersections@[i as int]);
            assert(intersections@.skip(i as int).drop_first() =~= intersections@.skip(i as int + 1));
        }
        if intersections[i].t > 0 {
            return Some(intersections[i]);
        }
        i = i + 1;
    }
    proof {
        assert(intersections@.skip(i as int) =~= Seq::<Intersection>::empty());
    }
    None
}

/// The shape identities of a list of intersections, in order.
pub open spec fn object_ids(s: Seq<Intersection>) -> Seq<i32> {
    s.map_values(|x: Intersection| x.object_id)
}

/// Removes the first occurrence of `id` from the stack.
pub open spec fn stack_remove(s: Seq<i32>, id: i32) -> Seq<i32>
    decreases s.len(),
{
    if s.len() == 0 {
        s
    } else if s[0] == id {
        s.drop_first()
    } else {
        seq![s[0]] + stack_remove(s.drop_first(), id)
    }
}

/// One step of the container walk: an id already on the stack is leaving its
/// object and is removed; a new id is entering and is appended.
pub open spec fn stack_toggle(s: Seq<i32>, id: i32) -> Seq<i32> {
    if s.contains(id) {
        stack_remove(s, id)
    } else {
        s.push(id)
    }
}

/// The container stack after the first `k` intersections of the list have
/// been processed.
pub open spec fn containers_after(ids: Seq<i32>, k: int) -> Seq<i32>
    decreases k,
{
    if k <= 0 {
        Seq::empty()
    } else {
        stack_toggle(containers_after(ids, k - 1), ids[k - 1])
    }
}

/// How many of the first `k` entries of `ids` equal `id`.
pub open spec fn occurrences(ids: Seq<i32>, id: i32, k: int) -> nat
    decreases k,
{
    if k <= 0 {
        0
    } else {
        occurrences(ids, id, k - 1) + (if ids[k - 1] == id {
            1nat
        } else {
            0nat
        })
    }
}

proof fn lemma_stack_remove_at(s: Seq<i32>, id: i32, pos: int)
    requires
        0 <= pos < s.len(),
        s[pos] == id,
        forall|j: int| 0 <= j < pos ==> s[j] != id,
    ensures
        stack_remove(s, id) == s.remove(pos),
    decreases pos,
{
    if pos == 0 {
        assert(s.drop_first() =~= s.remove(0));
    } else {
        lemma_stack_remove_at(s.drop_first(), id, pos - 1);
        assert(seq![s[0]] + s.drop_first().remove(pos - 1) =~= s.remove(pos));
    }
}

proof fn lemma_stack_remove_props(s: Seq<i32>, id: i32)
    requires
        s.no_duplicates(),
        s.contains(id),
    ensures
        stack_remove(s, id).no_duplicates(),
        stack_remove(s, id).len() == s.len() - 1,
        forall|x: i32| #[trigger] stack_remove(s, id).contains(x) <==> s.contains(x) && x != id,
    decreases s.len(),
{
    if s[0] == id {
        let rest = s.drop_first();
        assert forall|x: i32| #[trigger] rest.contains(x) implies s.contains(x) && x != id by {
            let w = choose|w: int| 0 <= w < rest.len() && rest[w] == x;
            assert(s[w + 1] == x);
            assert(x != id) by {
                if x == id {
                    assert(s[0] == s[w + 1]);
                }
            }
        }
        assert forall|x: i32| s.contains(x) && x != id implies #[trigger] rest.contains(x) by {
            let w = choose|w: int| 0 <= w < s.len() && s[w] == x;
            assert(rest[w - 1] == x);
        }
    } else {
        let rest = s.drop_first();
        assert(rest.contains(id)) by {
            let w = choose|w: int| 0 <= w < s.len() && s[w] == id;
            assert(rest[w - 1] == id);
        }
        assert(rest.no_duplicates());
        lemma_stack_remove_props(rest, id);
        let inner = stack_remove(rest, id);
        let whole = seq![s[0]] + inner;
        assert(stack_remove(s, id) == whole);
        assert forall|x: i32| #[trigger] whole.contains(x) implies s.contains(x) && x != id by {
            let w = choose|w: int| 0 <= w < whole.len() && whole[w] == x;
            if w == 0 {
                assert(s[0] == x);
            } else {
                assert(inner.contains(x)) by {
                    assert(inner[w - 1] == x);
                }
                assert(rest.contains(x));
                let v = choose|v: int| 0 <= v < rest.len() && rest[v] == x;
                assert(s[v + 1] == x);
            }
        }
        assert forall|x: i32| s.contains(x) && x != id implies #[trigger] whole.contains(x) by {
            let w = choose|w: int| 0 <= w < s.len() && s[w] == x;
            if w == 0 {
                assert(whole[0] == x);
            } else {
                assert(rest[w - 1] == x);
                assert(inner.contains(x));
                let v = choose|v: int| 0 <= v < inner.len() && inner[v] == x;
                assert(whole[v + 1] == x);
            }
        }
        assert(whole.no_duplicates()) by {
            assert forall|i: int, j: int| 0 <= i < j < whole.len() implies whole[i] != whole[j] by {
                if i == 0 {
                    assert(inner[j - 1] == whole[j]);
                    assert(inner.contains(whole[j]));
                    assert(s.contains(whole[j]) && whole[j] != id);
                    if whole[j] == s[0] {
                        let v = choose|v: int| 0 <= v < s.len() && s[v] == whole[j];
                        if v == 0 {
                            assert(rest.contains(whole[j]));
                            let u = choose|u: int| 0 <= u < rest.len() && rest[u] == whole[j];
                            assert(s[u + 1] == s[0]);
                        } else {
                            assert(s[v] == s[0]);
                        }
                    }
                } else {
                    assert(inner[i - 1] != inner[j - 1]);
                }
            }
        }
    }
}

/// Membership of the container stack mirrors the parity of entries seen so
/// far: an id is on the stack iff it has occurred an odd number of times.
pub proof fn lemma_containers_membership(ids: Seq<i32>, k: int)
    requires
        0 <= k <= ids.len(),
    ensures
        containers_after(ids, k).no_duplicates(),
        forall|id: i32|
            #[trigger] containers_after(ids, k).contains(id) <==> occurrences(ids, id, k) % 2 == 1,
    decreases k,
{
    if k == 0 {
        assert forall|id: i32| !(#[trigger] containers_after(ids, 0).contains(id)) by {
            if containers_after(ids, 0).contains(id) {
                let w = choose|w: int|
                    0 <= w < containers_after(ids, 0).len() && containers_after(ids, 0)[w] == id;
            }
        }
    } else {
        lemma_containers_membership(ids, k - 1);
        let prev = containers_after(ids, k - 1);
        let e = ids[k - 1];
        let cur = containers_after(ids, k);
        if prev.contains(e) {
            lemma_stack_remove_props(prev, e);
            assert forall|id: i32| #[trigger] cur.contains(id) <==> occurrences(ids, id, k) % 2
                == 1 by {
                if id == e {
                    assert(occurrences(ids, e, k) == occurrences(ids, e, k - 1) + 1);
                } else {
                    assert(occurrences(ids, id, k) == occurrences(ids, id, k - 1));
                }
            }
        } else {
            assert(cur == prev.push(e));
            assert forall|id: i32| #[trigger] cur.contains(id) <==> occurrences(ids, id, k) % 2
                == 1 by {
                if id == e {
                    assert(cur[cur.len() - 1] == e);
                    assert(cur.contains(e));
                    assert(occurrences(ids, e, k) == occurrences(ids, e, k - 1) + 1);
                } else {
                    assert(occurrences(ids, id, k) == occurrences(ids, id, k - 1));
                    assert(cur.contains(id) <==> prev.contains(id)) by {
                        if cur.contains(id) {
                            let w = choose|w: int| 0 <= w < cur.len() && cur[w] == id;
                            assert(prev[w] == id);
                        }
                        if prev.contains(id) {
                            let w = choose|w: int| 0 <= w < prev.len() && prev[w] == id;
                            assert(cur[w] == id);
                        }
                    }
                }
            }
            assert(cur.no_duplicates()) by {
                assert forall|i: int, j: int| 0 <= i < j < cur.len() implies cur[i] != cur[j] by {
                    if j == cur.len() - 1 {
                        assert(prev[i] == cur[i]);
                        assert(prev.contains(cur[i]));
                    }
                }
            }
        }
    }
}

/// Refractive stack law: after the whole list has been processed, the
/// container stack is empty iff every object that was entered was also
/// exited, that is, iff every id occurs an even number of times.
pub proof fn lemma_container_stack_balanced(ids: Seq<i32>)
    ensures
        containers_after(ids, ids.len() as int).len() == 0 <==> (forall|id: i32|
            occurrences(ids, id, ids.len() as int) % 2 == 0),
{
    lemma_containers_membership(ids, ids.len() as int);
    let fin = containers_after(ids, ids.len() as int);
    if fin.len() > 0 {
        assert(fin.contains(fin[0]));
        assert(occurrences(ids, fin[0], ids.len() as int) % 2 == 1);
    } else {
        assert forall|id: i32| occurrences(ids, id, ids.len() as int) % 2 == 0 by {
            if occurrences(ids, id, ids.len() as int) % 2 == 1 {
                assert(fin.contains(id));
            }
        }
    }
}

/// Finds the first position of `id` on the stack.
fn find_container(containers: &Vec<i32>, id: i32) -> (r: Option<usize>)
    ensures
        match r {
            Some(p) => {
                &&& p < containers@.len()
                &&& containers@[p as int] == id
                &&& forall|j: int| 0 <= j < p ==> containers@[j] != id
            },
            None => !containers@.contains(id),
        },
{
    let mut i: usize = 0;
    while i < containers.len()
        invariant
            i <= containers@.len(),
            forall|j: int| 0 <= j < i ==> containers@[j] != id,
        decreases containers@.len() - i,
    {
        if containers[i] == id {
            return Some(i);
        }
        i = i + 1;
    }
    proof {
        if containers@.contains(id) {
            let w = choose|w: int| 0 <= w < containers@.len() && containers@[w] == id;
        }
    }
    None
}

/// Applies one container step for the given id.
fn toggle_container(containers: &mut Vec<i32>, id: i32)
    ensures
        final (containers)@ == stack_toggle(old(containers)@, id),
{
    match find_container(containers, id) {
        Some(p) => {
            proof {
                assert(containers@.contains(id)) by {
                    assert(containers@[p as int] == id);
                }
                lemma_stack_remove_at(containers@, id, p as int);
            }
            containers.remove(p);
        },
        None => {
            containers.push(id);
        },
    }
}

/// Walks the sorted intersection list and reports the objects that enclose
/// the hit on its two sides: the container the ray is leaving just before the
/// hit (whose material gives the entering refractive index) and the container
/// just after the hit (giving the exiting index). `None` stands for empty
/// space, whose refractive index is 1.
pub fn refractive_containers(intersections: &Vec<Intersection>, hit_index: usize) -> (r: (
    Option<i32>,
    Option<i32>,
))
    requires
        hit_index < intersections@.len(),
    ensures
        ({
            let ids = object_ids(intersections@);
            let before = containers_after(ids, hit_index as int);
            let after = containers_after(ids, hit_index as int + 1);
            &&& r.0 == (if before.len() == 0 {
                None::<i32>
            } else {
                Some(before.last())
            })
            &&& r.1 == (if after.len() == 0 {
                None::<i32>
            } else {
                Some(after.last())
            })
        }),
{
    let ghost ids = object_ids(intersections@);
    let mut containers: Vec<i32> = Vec::new();
    let mut k: usize = 0;
    while k < hit_index
        invariant
            k <= hit_index,
            hit_index < intersections@.len(),
            ids == object_ids(intersections@),
            containers@ == containers_after(ids, k as int),
        decreases hit_index - k,
    {
        toggle_container(&mut containers, intersections[k].object_id);
        proof {
            assert(ids[k as int] == intersections@[k as int].object_id);
        }
        k = k + 1;
    }
    let n1 = if containers.len() == 0 {
        None
    } else {
        Some(containers[containers.len() - 1])
    };
    toggle_container(&mut containers, intersections[hit_index].object_id);
    proof {
        assert(ids[hit_index as int] == intersections@[hit_index as int].object_id);
    }
    let n2 = if containers.len() == 0 {
        None
    } else {
        Some(containers[containers.len() - 1])
    };
    (n1, n2)
}

} // verus!
