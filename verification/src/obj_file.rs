//! The index arithmetic of the mesh loader.
//!
//! A face record of the wavefront-style scene format lists the (1-indexed)
//! vertices of a polygon; a polygon of more than three vertices becomes a fan
//! of triangles around its first vertex. Reading the coordinate numbers is
//! the loader's; which triangles a face yields, and whether its indices lie
//! within the parsed tables, is decided here.

use vstd::prelude::*;

verus! {

/// Splits a polygon's vertex indices into a triangle fan: triangle `k` joins
/// the first vertex with the `k+1`-th and `k+2`-th.
pub fn fan_triangulation(indices: &Vec<usize>) -> (r: Vec<(usize, usize, usize)>)
    requires
        indices@.len() >= 3,
    ensures
        r@.len() == indices@.len() - 2,
        forall|k: int|
            0 <= k < r@.len() ==> #[trigger] r@[k] == (indices@[0], indices@[k + 1], indices@[k
                + 2]),
{
    let mut triangles: Vec<(usize, usize, usize)> = Vec::new();
    let mut k: usize = 1;
    while k < indices.len() - 1
        invariant
            1 <= k,
            k + 1 <= indices@.len(),
            indices@.len() >= 3,
            triangles@.len() == k - 1,
            forall|j: int|
                0 <= j < triangles@.len() ==> #[trigger] triangles@[j] == (
                    indices@[0],
                    indices@[j + 1],
                    indices@[j + 2],
                ),
        decreases indices@.len() - k,
    {
        triangles.push((indices[0], indices[k], indices[k + 1]));
        k = k + 1;
    }
    triangles
}

/// Checks a face record against the table it indexes: every index must point
/// at an existing entry. Index 0 is the table's placeholder entry and not a
/// legal reference, so a record is in range iff every index lies in
/// `1..table_len`.
pub fn face_indices_in_range(indices: &Vec<usize>, table_len: usize) -> (r: bool)
    ensures
        r == forall|i: int| 0 <= i < indices@.len() ==> 1 <= #[trigger] indices@[i] < table_len,
{
    let mut i: usize = 0;
    while i < indices.len()
        invariant
            i <= indices@.len(),
            forall|j: int| 0 <= j < i ==> 1 <= #[trigger] indices@[j] < table_len,
        decreases indices@.len() - i,
    {
        if indices[i] < 1 || indices[i] >= table_len {
            return false;
        }
        i = i + 1;
    }
    true
}

} // verus!
