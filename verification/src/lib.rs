//! Core logic of a recursive ray tracer: the discrete decisions of the
//! rendering pipeline (hit selection, constructive-solid-geometry filtering,
//! the refractive container stack, shadow tests, bounding-volume partitioning,
//! face triangulation) and the portable-pixmap encoder, each with a proved
//! contract. Real-valued quantities enter these decisions only through
//! order-preserving integer keys supplied by the caller.

pub mod canvas;
pub mod csg;
pub mod group;
pub mod intersection;
pub mod obj_file;
pub mod transformation;
pub mod world;

use vstd::prelude::*;

verus! {

/// Allocator for the stable identities carried by shapes and matrices.
/// The counter is monotonic, so every identity it hands out is fresh; a
/// driver that wants process-wide identities keeps one allocator per kind
/// behind a lock.
pub struct IdAllocator {
    /// The next identity to hand out; all identities below it are taken.
    pub next: i32,
}

impl IdAllocator {
    /// A fresh allocator; identities start at 1.
    pub fn new() -> (r: IdAllocator)
        ensures
            r.next == 1,
    {
        IdAllocator { next: 1 }
    }
}

/// Hands out the next shape identity and advances the counter, so no two
/// calls on the same allocator return the same identity.
pub fn generate_object_id(ids: &mut IdAllocator) -> (id: i32)
    requires
        old(ids).next < i32::MAX,
    ensures
        id == old(ids).next,
        final(ids).next == id + 1,
{
    let id = ids.next;
    ids.next = ids.next + 1;
    id
}

/// Hands out the next matrix identity (the key of the inverse cache) and
/// advances the counter.
pub fn generate_matrix_id(ids: &mut IdAllocator) -> (id: i32)
    requires
        old(ids).next < i32::MAX,
    ensures
        id == old(ids).next,
        final(ids).next == id + 1,
{
    let id = ids.next;
    ids.next = ids.next + 1;
    id
}

} // verus!
