use copc::{Aabb, Binary64, GpsTime, VoxelKey};

fn b(v: f64) -> Binary64 {
    Binary64::from_bits(v.to_bits())
}

fn key(level: i32, x: i32, y: i32, z: i32) -> VoxelKey {
    VoxelKey { level, x, y, z }
}

fn cube(min: f64, max: f64) -> Aabb {
    Aabb {
        min: [b(min), b(min), b(min)],
        max: [b(max), b(max), b(max)],
    }
}

#[test]
fn numbers_compare_as_doubles_do() {
    let values = [
        f64::NEG_INFINITY,
        f64::MIN,
        -1.5,
        -1.0,
        -f64::MIN_POSITIVE,
        -5e-324,
        -0.0,
        0.0,
        5e-324,
        f64::MIN_POSITIVE,
        1.0,
        1.0 + f64::EPSILON,
        2.0,
        f64::MAX,
        f64::INFINITY,
        f64::NAN,
        -f64::NAN,
    ];
    for x in values {
        assert_eq!(b(x).is_nan(), x.is_nan());
        for y in values {
            assert_eq!(b(x).le(&b(y)), x <= y, "{} <= {}", x, y);
            assert_eq!(b(x).lt(&b(y)), x < y, "{} < {}", x, y);
            assert_eq!(b(x) == b(y), x == y, "{} == {}", x, y);
            let (s, t) = (GpsTime(b(x)), GpsTime(b(y)));
            assert_eq!(s == t, x == y);
            assert_eq!(s.partial_cmp(&t), x.partial_cmp(&y));
            assert_eq!(s < t, x < y);
            assert_eq!(s >= t, x >= y);
        }
    }
}

#[test]
fn windows_hold_their_ends() {
    let (start, end) = (GpsTime(b(1.0)), GpsTime(b(2.0)));
    assert!(GpsTime(b(1.0)).is_within(start, end));
    assert!(GpsTime(b(2.0)).is_within(start, end));
    assert!(!GpsTime(b(0.5)).is_within(start, end));
    assert!(!GpsTime(b(2.5)).is_within(start, end));
    assert!(!GpsTime(b(f64::NAN)).is_within(start, end));
}

#[test]
fn the_root_has_no_parent() {
    assert_eq!(VoxelKey::root(), key(0, 0, 0, 0));
    assert_eq!(VoxelKey::root().parent(), None);
    assert_eq!(key(0, 5, 5, 5).parent(), None);
}

#[test]
fn parents_halve_the_coordinates() {
    assert_eq!(key(3, 5, 4, 7).parent(), Some(key(2, 2, 2, 3)));
    assert_eq!(key(1, -1, -2, -3).parent(), Some(key(0, -1, -1, -2)));
}

#[test]
fn children_are_numbered_by_octant() {
    let node = key(2, 1, 2, 3);
    assert_eq!(node.child(0), key(3, 2, 4, 6));
    assert_eq!(node.child(1), key(3, 3, 4, 6));
    assert_eq!(node.child(2), key(3, 2, 5, 6));
    assert_eq!(node.child(4), key(3, 2, 4, 7));
    assert_eq!(node.child(7), key(3, 3, 5, 7));
    let children = node.children();
    for dir in 0..8u8 {
        assert_eq!(children[dir as usize], node.child(dir));
        assert_eq!(children[dir as usize].parent(), Some(node));
    }
}

#[test]
fn every_node_is_a_child_of_its_parent() {
    for node in [key(4, 9, 2, 15), key(2, -3, 0, 1)] {
        let parent = node.parent().unwrap();
        assert!(parent.children().contains(&node));
    }
}

#[test]
fn coordinates_of_children_wrap() {
    let node = key(0, 0x4000_0000, -0x4000_0001, i32::MAX);
    let child = node.child(0);
    assert_eq!(child.x, i32::MIN);
    assert_eq!(child.y, 0x7fff_fffe);
    assert_eq!(child.z, -2);
}

#[test]
fn boxes_that_touch_overlap() {
    assert!(cube(0.0, 1.0).intersects(&cube(1.0, 2.0)));
    assert!(cube(1.0, 2.0).intersects(&cube(0.0, 1.0)));
    assert!(cube(0.0, 9.0).intersects(&cube(3.0, 4.0)));
    assert!(!cube(0.0, 1.0).intersects(&cube(1.5, 2.0)));
    let mut apart = cube(0.0, 1.0);
    apart.min[1] = b(5.0);
    apart.max[1] = b(6.0);
    assert!(!cube(0.0, 1.0).intersects(&apart));
    assert!(!cube(f64::NAN, 1.0).intersects(&cube(0.0, 1.0)));
}

#[test]
fn boxes_hold_their_faces() {
    let cube = cube(0.0, 1.0);
    assert!(cube.contains(&[b(0.0), b(1.0), b(0.5)]));
    assert!(!cube.contains(&[b(0.0), b(1.0), b(1.5)]));
    assert!(!cube.contains(&[b(0.0), b(f64::NAN), b(0.5)]));
}

#[test]
fn children_differ() {
    let children = key(5, 3, -7, 11).children();
    for i in 0..8 {
        for j in 0..i {
            assert_ne!(children[i], children[j]);
        }
    }
}

#[test]
fn enclosing_boxes_overlap_what_the_inner_ones_do() {
    let (outer, inner) = (cube(0.0, 10.0), cube(2.0, 4.0));
    for other in [cube(4.0, 5.0), cube(-1.0, 2.0), cube(3.0, 3.5)] {
        assert!(inner.intersects(&other));
        assert!(outer.intersects(&other));
    }
}
