use pathfinder::math::vector::Vector3;
use pathfinder::scene::Bounds;

fn cube(lo: i64, hi: i64) -> Bounds {
    Bounds::new(Vector3::new(lo, lo, lo), Vector3::new(hi, hi, hi))
}

fn block(min: (i64, i64, i64), max: (i64, i64, i64)) -> Bounds {
    Bounds::new(Vector3::new(min.0, min.1, min.2), Vector3::new(max.0, max.1, max.2))
}

#[test]
fn new_takes_the_corners_as_they_are() {
    let inverted = Bounds::new(Vector3::new(5, 5, 5), Vector3::new(1, 1, 1));
    assert_eq!(inverted.min, Vector3::new(5, 5, 5));
    assert_eq!(inverted.max, Vector3::new(1, 1, 1));
}

#[test]
fn empty_is_the_origin() {
    let empty = Bounds::empty();
    assert_eq!(empty.min, Vector3::zero());
    assert_eq!(empty.max, Vector3::zero());
}

#[test]
fn join_is_the_union_box() {
    let a = block((0, 1, 2), (3, 4, 5));
    let b = block((-1, 2, 0), (2, 9, 4));
    assert_eq!(a.join(&b), block((-1, 1, 0), (3, 9, 5)));
    assert_eq!(b.join(&a), block((-1, 1, 0), (3, 9, 5)));
    assert_eq!(a.join(&a), a);
}

#[test]
fn join_holds_the_points_of_both() {
    let a = block((0, 0, 0), (2, 2, 2));
    let b = block((5, -3, 1), (6, -1, 9));
    let joined = a.join(&b);
    for p in [Vector3::new(0, 0, 0), Vector3::new(2, 2, 2), Vector3::new(1, 2, 0)] {
        assert!(a.contains_point(&p));
        assert!(joined.contains_point(&p));
    }
    for p in [Vector3::new(5, -3, 1), Vector3::new(6, -1, 9), Vector3::new(5, -2, 4)] {
        assert!(b.contains_point(&p));
        assert!(joined.contains_point(&p));
    }
}

#[test]
fn contains_is_symmetric() {
    let boxes = [
        cube(0, 2),
        cube(1, 3),
        cube(2, 4),
        cube(-5, -1),
        block((0, 0, 0), (10, 1, 1)),
        block((1, -4, 0), (2, 4, 1)),
        block((3, 3, 3), (3, 3, 3)),
    ];
    for a in boxes.iter() {
        for b in boxes.iter() {
            assert_eq!(a.contains(b), b.contains(a));
        }
    }
}

#[test]
fn contains_wants_positive_volume_in_common() {
    assert!(cube(0, 2).contains(&cube(1, 3)));
    assert!(cube(0, 10).contains(&cube(4, 5)));
    assert!(cube(4, 5).contains(&cube(0, 10)));
    assert!(!cube(0, 2).contains(&cube(3, 5)));
    assert!(!cube(0, 2).contains(&block((1, 1, 5), (2, 2, 6))));
}

#[test]
fn boxes_sharing_a_face_do_not_overlap() {
    let a = cube(0, 2);
    let b = block((2, 0, 0), (4, 2, 2));
    assert!(!a.contains(&b));
    assert!(!b.contains(&a));
    let above = block((0, 0, 2), (2, 2, 3));
    assert!(!a.contains(&above));
    let beside = block((0, -2, 0), (2, 0, 2));
    assert!(!a.contains(&beside));
    let c = block((1, 0, 0), (4, 2, 2));
    assert!(a.contains(&c));
}

#[test]
fn a_flat_box_overlaps_nothing_it_only_touches() {
    let floor = block((0, 0, 0), (4, 4, 0));
    assert!(!floor.contains(&block((0, 0, 0), (4, 4, 1))));
    assert!(floor.contains(&block((1, 1, -1), (2, 2, 1))));
    assert!(!floor.contains(&floor));
}

#[test]
fn planes_are_the_six_faces_in_order() {
    let b = block((1, 2, 3), (4, 6, 8));
    let planes = b.planes();
    assert_eq!(planes.len(), 6);
    assert_eq!(planes[0], block((1, 2, 3), (4, 6, 3)));
    assert_eq!(planes[1], block((1, 2, 8), (4, 6, 8)));
    assert_eq!(planes[2], block((1, 2, 3), (4, 2, 8)));
    assert_eq!(planes[3], block((1, 6, 3), (4, 6, 8)));
    assert_eq!(planes[4], block((1, 2, 3), (1, 6, 8)));
    assert_eq!(planes[5], block((4, 2, 3), (4, 6, 8)));
}

#[test]
fn collides_with_what_crosses_the_shell() {
    let b = cube(0, 10);
    assert!(b.collides_with(&cube(8, 12)));
    assert!(b.collides_with(&cube(-1, 1)));
    assert!(b.collides_with(&block((4, 4, 9), (5, 5, 11))));
    assert!(b.collides_with(&cube(-5, 15)));
}

#[test]
fn collides_with_nothing_inside_or_outside() {
    let b = cube(0, 10);
    assert!(!b.collides_with(&cube(4, 5)));
    assert!(!b.collides_with(&cube(0, 10)));
    assert!(!b.collides_with(&cube(20, 30)));
    assert!(!b.collides_with(&cube(10, 12)));
    assert!(b.contains(&cube(4, 5)));
}

#[test]
fn contains_point_includes_the_faces() {
    let b = block((0, 0, 0), (2, 3, 4));
    assert!(b.contains_point(&Vector3::new(0, 0, 0)));
    assert!(b.contains_point(&Vector3::new(2, 3, 4)));
    assert!(b.contains_point(&Vector3::new(1, 3, 0)));
    assert!(!b.contains_point(&Vector3::new(3, 3, 4)));
    assert!(!b.contains_point(&Vector3::new(1, -1, 2)));
    assert!(!b.contains_point(&Vector3::new(1, 1, 5)));
}

#[test]
fn midpoint_is_the_centre_rounded_down() {
    assert_eq!(block((0, 0, 0), (2, 4, 6)).midpoint(), Vector3::new(1, 2, 3));
    assert_eq!(block((0, 0, 0), (3, 3, 3)).midpoint(), Vector3::new(1, 1, 1));
    assert_eq!(block((-3, -2, -1), (0, 0, 0)).midpoint(), Vector3::new(-2, -1, -1));
}

#[test]
fn dimensions_are_the_lengths() {
    assert_eq!(block((1, 2, 3), (4, 6, 8)).dimensions(), Vector3::new(3, 4, 5));
    assert_eq!(cube(7, 7).dimensions(), Vector3::zero());
    assert_eq!(block((-2, -2, -2), (2, 3, 4)).dimensions(), Vector3::new(4, 5, 6));
}

#[test]
fn to_power_of_two_of_extent_three_is_four() {
    let b = block((0, 10, -7), (3, 13, -4));
    assert!(b.is_widenable());
    let widened = b.to_power_of_two();
    assert_eq!(widened.dimensions(), Vector3::new(4, 4, 4));
    assert_eq!(widened.midpoint(), b.midpoint());
    assert_eq!(widened, block((-1, 9, -8), (3, 13, -4)));
}

#[test]
fn to_power_of_two_is_strictly_greater() {
    let b = block((0, 0, 0), (4, 8, 5));
    let widened = b.to_power_of_two();
    assert_eq!(widened.dimensions(), Vector3::new(8, 16, 8));
    assert_eq!(widened.midpoint(), b.midpoint());
    assert_eq!(widened, block((-2, -4, -2), (6, 12, 6)));
}

#[test]
fn to_power_of_two_widens_each_axis_alone() {
    let b = block((0, 0, 0), (2, 100, 1000));
    let widened = b.to_power_of_two();
    assert_eq!(widened.dimensions(), Vector3::new(4, 128, 1024));
    assert!(widened.contains_point(&b.min));
    assert!(widened.contains_point(&b.max));
}

#[test]
fn short_boxes_cannot_be_widened() {
    assert!(!cube(0, 1).is_widenable());
    assert!(!cube(0, 0).is_widenable());
    assert!(!block((0, 0, 0), (5, 5, 1)).is_widenable());
    assert!(!block((3, 3, 3), (1, 1, 1)).is_widenable());
    assert!(cube(0, 2).is_widenable());
}

#[test]
fn boxes_at_the_edge_of_the_lattice_cannot_be_widened() {
    assert!(!block((0, 0, 1), (3, 3, i64::MAX)).is_widenable());
    assert!(block((0, 0, 0), (3, 3, i64::MAX)).is_widenable());
    assert!(!cube(i64::MIN, i64::MAX).is_widenable());
    assert!(!block((0, 0, i64::MAX - 4), (3, 3, i64::MAX)).is_widenable());
    assert!(block((0, 0, i64::MAX - 4), (3, 3, i64::MAX - 1)).is_widenable());
    let widest = block((0, 0, 0), (3, 3, i64::MAX)).to_power_of_two();
    assert_eq!(widest.min.z, -1);
    assert_eq!(widest.max.z, i64::MAX);
}

#[test]
fn from_a_list_is_the_union_of_its_boxes() {
    let boxes = vec![block((1, 1, 1), (2, 2, 2)), block((-3, 1, 1), (-1, 5, 2))];
    assert_eq!(Bounds::from(&boxes), block((-3, 1, 1), (2, 5, 2)));
    let three = vec![cube(5, 6), cube(8, 9), block((7, 2, 6), (7, 3, 20))];
    assert_eq!(Bounds::from(&three), block((5, 2, 5), (9, 9, 20)));
}

#[test]
fn from_a_list_of_one_is_the_box_itself() {
    let far = vec![cube(5, 6)];
    assert_eq!(Bounds::from(&far), cube(5, 6));
    let below = vec![block((-9, -8, -7), (-3, -2, -1))];
    assert_eq!(Bounds::from(&below), block((-9, -8, -7), (-3, -2, -1)));
}

#[test]
fn from_an_empty_list_is_the_empty_box() {
    let none: Vec<Bounds> = Vec::new();
    assert_eq!(Bounds::from(&none), Bounds::empty());
}
