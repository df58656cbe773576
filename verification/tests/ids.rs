//! Identity allocation.

use ray_tracer::{generate_matrix_id, generate_object_id, IdAllocator};

#[test]
fn object_ids_are_distinct_and_increasing() {
    let mut ids = IdAllocator::new();

    let first = generate_object_id(&mut ids);
    let second = generate_object_id(&mut ids);
    let third = generate_object_id(&mut ids);

    assert_eq!(1, first);
    assert_eq!(2, second);
    assert_eq!(3, third);
}

#[test]
fn matrix_ids_are_distinct_and_increasing() {
    let mut ids = IdAllocator::new();

    let first = generate_matrix_id(&mut ids);
    let second = generate_matrix_id(&mut ids);

    assert_eq!(1, first);
    assert_eq!(2, second);
}
