//! The constructive-solid-geometry keep-rule and intersection filter.

use ray_tracer::csg::{filter_intersections, filter_intersections_of, intersection_allowed, ShapeTree};
use ray_tracer::intersection::Intersection;

fn key(t: f64) -> i64 {
    (t * 100000.0).round() as i64
}

#[test]
fn evaluating_rule_for_csg_operation() {
    struct Operation {
        operation: String,
        left_hit: bool,
        inside_left_hit: bool,
        inside_right_hit: bool,
        result: bool,
    }

    let operation_truth_table = vec![
        Operation { operation: String::from("union"), left_hit: true, inside_left_hit: true, inside_right_hit: true, result: false },
        Operation { operation: String::from("union"), left_hit: true, inside_left_hit: true, inside_right_hit: false, result: true },
        Operation { operation: String::from("union"), left_hit: true, inside_left_hit: false, inside_right_hit: true, result: false },
        Operation { operation: String::from("union"), left_hit: true, inside_left_hit: false, inside_right_hit: false, result: true },
        Operation { operation: String::from("union"), left_hit: false, inside_left_hit: true, inside_right_hit: true, result: false },
        Operation { operation: String::from("union"), left_hit: false, inside_left_hit: true, inside_right_hit: false, result: false },
        Operation { operation: String::from("union"), left_hit: false, inside_left_hit: false, inside_right_hit: true, result: true },
        Operation { operation: String::from("union"), left_hit: false, inside_left_hit: false, inside_right_hit: false, result: true },
        Operation { operation: String::from("intersection"), left_hit: true, inside_left_hit: true, inside_right_hit: true, result: true },
        Operation { operation: String::from("intersection"), left_hit: true, inside_left_hit: true, inside_right_hit: false, result: false },
        Operation { operation: String::from("intersection"), left_hit: true, inside_left_hit: false, inside_right_hit: true, result: true },
        Operation { operation: String::from("intersection"), left_hit: true, inside_left_hit: false, inside_right_hit: false, result: false },
        Operation { operation: String::from("intersection"), left_hit: false, inside_left_hit: true, inside_right_hit: true, result: true },
        Operation { operation: String::from("intersection"), left_hit: false, inside_left_hit: true, inside_right_hit: false, result: true },
        Operation { operation: String::from("intersection"), left_hit: false, inside_left_hit: false, inside_right_hit: true, result: false },
        Operation { operation: String::from("intersection"), left_hit: false, inside_left_hit: false, inside_right_hit: false, result: false },
        Operation { operation: String::from("difference"), left_hit: true, inside_left_hit: true, inside_right_hit: true, result: false },
        Operation { operation: String::from("difference"), left_hit: true, inside_left_hit: true, inside_right_hit: false, result: true },
        Operation { operation: String::from("difference"), left_hit: true, inside_left_hit: false, inside_right_hit: true, result: false },
        Operation { operation: String::from("difference"), left_hit: true, inside_left_hit: false, inside_right_hit: false, result: true },
        Operation { operation: String::from("difference"), left_hit: false, inside_left_hit: true, inside_right_hit: true, result: true },
        Operation { operation: String::from("difference"), left_hit: false, inside_left_hit: true, inside_right_hit: false, result: true },
        Operation { operation: String::from("difference"), left_hit: false, inside_left_hit: false, inside_right_hit: true, result: false },
        Operation { operation: String::from("difference"), left_hit: false, inside_left_hit: false, inside_right_hit: false, result: false },
    ];

    for operation in operation_truth_table {
        let expected = operation.result;

        let actual = intersection_allowed(
            operation.operation,
            operation.left_hit,
            operation.inside_left_hit,
            operation.inside_right_hit,
        );

        assert_eq!(expected, actual);
    }
}

#[test]
fn unknown_operation_allows_nothing() {
    for left_hit in [false, true] {
        for inside_left_hit in [false, true] {
            for inside_right_hit in [false, true] {
                assert!(!intersection_allowed(
                    String::from("exclusion"),
                    left_hit,
                    inside_left_hit,
                    inside_right_hit,
                ));
            }
        }
    }
}

#[test]
fn subtree_membership_recurses_through_groups_and_csg() {
    // A CSG whose left operand is a group of two spheres: hits on either
    // sphere, on the group, or on the CSG node itself count as inside; a
    // stranger does not.
    let tree = ShapeTree::Csg {
        id: 10,
        left: Box::new(ShapeTree::Group { id: 11, children: vec![
            ShapeTree::Leaf { id: 12 },
            ShapeTree::Leaf { id: 13 },
        ] }),
        right: Box::new(ShapeTree::Leaf { id: 14 }),
    };

    assert!(tree.includes(10));
    assert!(tree.includes(11));
    assert!(tree.includes(12));
    assert!(tree.includes(13));
    assert!(tree.includes(14));
    assert!(!tree.includes(15));
}

#[test]
fn empty_group_includes_only_itself() {
    let tree = ShapeTree::Group { id: 3, children: vec![] };

    assert!(tree.includes(3));
    assert!(!tree.includes(4));
}

#[test]
fn filtering_list_of_intersections() {
    let shape1 = 1;
    let shape2 = 2;
    let intersections = vec![
        Intersection::new(key(1.), shape1),
        Intersection::new(key(2.), shape2),
        Intersection::new(key(3.), shape1),
        Intersection::new(key(4.), shape2),
    ];
    let left_hit = vec![true, false, true, false];

    let expecteds = vec![("union", 0, 3), ("intersection", 1, 2), ("difference", 0, 1)];

    for expected in expecteds {
        let actual = filter_intersections(String::from(expected.0), &intersections, &left_hit);

        assert_eq!(2, actual.len());
        assert_eq!(intersections[expected.1], actual[0]);
        assert_eq!(intersections[expected.2], actual[1]);
    }
}

/// The distances at which a ray from `origin` along the z axis crosses the
/// unit sphere at the origin.
fn unit_sphere_hits(origin_z: f64) -> Vec<f64> {
    // x and y are zero on this ray, so the sphere equation reduces to
    // (origin_z + t)^2 = 1.
    vec![-origin_z - 1.0, -origin_z + 1.0]
}

/// The distances at which the same ray crosses the unit cube translated by
/// `offset_z` along z.
fn unit_cube_hits(origin_z: f64, offset_z: f64) -> Vec<f64> {
    vec![offset_z - 1.0 - origin_z, offset_z + 1.0 - origin_z]
}

#[test]
fn ray_hits_csg_object() {
    // A union of the unit sphere and a cube shifted to z = 0.5, probed by the
    // ray from (0, 0, -5) along +z.
    let sphere_id = 1;
    let cube_id = 2;
    let sphere_ts = unit_sphere_hits(-5.0);
    let cube_ts = unit_cube_hits(-5.0, 0.5);

    let mut merged: Vec<(f64, i32, bool)> = vec![];
    for t in &sphere_ts {
        merged.push((*t, sphere_id, true));
    }
    for t in &cube_ts {
        merged.push((*t, cube_id, false));
    }
    merged.sort_by(|a, b| a.0.partial_cmp(&b.0).unwrap());

    let intersections: Vec<Intersection> =
        merged.iter().map(|m| Intersection::new(key(m.0), m.1)).collect();
    let left_hit: Vec<bool> = merged.iter().map(|m| m.2).collect();

    let expected_t1 = key(4.);
    let expected_id1 = sphere_id;
    let expected_t2 = key(6.5);
    let expected_id2 = cube_id;

    let actual = filter_intersections(String::from("union"), &intersections, &left_hit);

    assert_eq!(2, actual.len());
    assert_eq!(expected_t1, actual[0].t);
    assert_eq!(expected_id1, actual[0].object_id);
    assert_eq!(expected_t2, actual[1].t);
    assert_eq!(expected_id2, actual[1].object_id);
}

#[test]
fn ray_misses_csg_object() {
    // The ray from (0, 2, -5) along +z passes above both shapes, so the
    // merged intersection list is empty and the filter keeps nothing.
    let intersections: Vec<Intersection> = vec![];
    let left_hit: Vec<bool> = vec![];

    let actual = filter_intersections(String::from("union"), &intersections, &left_hit);

    assert!(actual.is_empty());
}

#[test]
fn filtering_against_subtree_resolves_membership_itself() {
    // The same union scenario, handing the filter the left subtree instead
    // of precomputed flags.
    let sphere_id = 1;
    let cube_id = 2;
    let left = ShapeTree::Leaf { id: sphere_id };
    let intersections = vec![
        Intersection::new(key(4.), sphere_id),
        Intersection::new(key(4.5), cube_id),
        Intersection::new(key(6.), sphere_id),
        Intersection::new(key(6.5), cube_id),
    ];

    let actual = filter_intersections_of(String::from("union"), &intersections, &left);

    assert_eq!(2, actual.len());
    assert_eq!(key(4.), actual[0].t);
    assert_eq!(sphere_id, actual[0].object_id);
    assert_eq!(key(6.5), actual[1].t);
    assert_eq!(cube_id, actual[1].object_id);
}

#[test]
fn difference_keeps_left_entry_and_right_entry() {
    // The same two shapes under difference: the filter keeps the sphere's
    // entry at 4.0 and the cube's entry at 4.5, where the ray leaves the
    // carved-away region.
    let sphere_id = 1;
    let cube_id = 2;
    let intersections = vec![
        Intersection::new(key(4.), sphere_id),
        Intersection::new(key(4.5), cube_id),
        Intersection::new(key(6.), sphere_id),
        Intersection::new(key(6.5), cube_id),
    ];
    let left_hit = vec![true, false, true, false];

    let actual = filter_intersections(String::from("difference"), &intersections, &left_hit);

    assert_eq!(2, actual.len());
    assert_eq!(key(4.), actual[0].t);
    assert_eq!(sphere_id, actual[0].object_id);
    assert_eq!(key(4.5), actual[1].t);
    assert_eq!(cube_id, actual[1].object_id);
}
