use pathfinder::math::vector::{halfway, Vector3};

#[test]
fn zero_is_the_origin() {
    assert_eq!(Vector3::zero(), Vector3 { x: 0, y: 0, z: 0 });
}

#[test]
fn new_keeps_the_components() {
    let v = Vector3::new(-4, 5, 6);
    assert_eq!((v.x, v.y, v.z), (-4, 5, 6));
}

#[test]
fn sum_and_difference_are_componentwise() {
    let a = Vector3::new(1, -2, 3);
    let b = Vector3::new(10, 20, -30);
    assert_eq!(a + b, Vector3::new(11, 18, -27));
    assert_eq!(b - a, Vector3::new(9, 22, -33));
    assert_eq!(a - a, Vector3::zero());
}

#[test]
fn halfway_rounds_down() {
    assert_eq!(halfway(0, 3), 1);
    assert_eq!(halfway(-1, 3), 1);
    assert_eq!(halfway(-3, 0), -2);
    assert_eq!(halfway(-1, 0), -1);
    assert_eq!(halfway(2, 2), 2);
    assert_eq!(halfway(-5, -5), -5);
}

#[test]
fn halfway_takes_the_ends_of_the_range() {
    assert_eq!(halfway(i64::MAX, i64::MAX), i64::MAX);
    assert_eq!(halfway(i64::MIN, i64::MIN), i64::MIN);
    assert_eq!(halfway(i64::MIN, i64::MAX), -1);
    assert_eq!(halfway(i64::MAX - 1, i64::MAX), i64::MAX - 1);
}
