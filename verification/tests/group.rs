//! Partitioning a group's children for the bounding-volume hierarchy.

use ray_tracer::group::{partition_children, Placement};

#[test]
fn partitioning_groups_children() {
    // Three spheres: one in the lower half of the split box, one in the
    // upper half, one straddling the split plane. The first two move to the
    // halves, the third stays with the group.
    let sphere1 = 1;
    let sphere2 = 2;
    let sphere3 = 3;
    let children = vec![sphere1, sphere2, sphere3];
    let placements = vec![Placement::Left, Placement::Right, Placement::Straddling];

    let (left, right, remaining) = partition_children(children, &placements);

    assert_eq!(vec![sphere1], left);
    assert_eq!(vec![sphere2], right);
    assert_eq!(vec![sphere3], remaining);
}

#[test]
fn partition_keeps_order_within_each_list() {
    let children = vec![10, 11, 12, 13, 14, 15];
    let placements = vec![
        Placement::Right,
        Placement::Left,
        Placement::Straddling,
        Placement::Left,
        Placement::Right,
        Placement::Straddling,
    ];

    let (left, right, remaining) = partition_children(children, &placements);

    assert_eq!(vec![11, 13], left);
    assert_eq!(vec![10, 14], right);
    assert_eq!(vec![12, 15], remaining);
}

#[test]
fn partition_of_empty_group_is_empty() {
    let children: Vec<i32> = vec![];
    let placements: Vec<Placement> = vec![];

    let (left, right, remaining) = partition_children(children, &placements);

    assert!(left.is_empty());
    assert!(right.is_empty());
    assert!(remaining.is_empty());
}
