use anima_solver::Vec2;

#[test]
fn unit_offsets() {
    assert_eq!(Vec2::right(), Vec2 { x: 1, y: 0 });
    assert_eq!(Vec2::up(), Vec2 { x: 0, y: 1 });
    assert_eq!(Vec2::left(), Vec2 { x: -1, y: 0 });
    assert_eq!(Vec2::down(), Vec2 { x: 0, y: -1 });
    assert_eq!(Vec2::zero(), Vec2 { x: 0, y: 0 });
    assert_eq!(Vec2::default(), Vec2::zero());
}

#[test]
fn new_keeps_components() {
    let v = Vec2::new(-7, 12);
    assert_eq!(v.x, -7);
    assert_eq!(v.y, 12);
}

#[test]
fn abs_is_component_wise() {
    assert_eq!(Vec2::new(-3, 4).abs(), Vec2::new(3, 4));
    assert_eq!(Vec2::new(5, -6).abs(), Vec2::new(5, 6));
    assert_eq!(Vec2::new(0, 0).abs(), Vec2::new(0, 0));
    assert_eq!(Vec2::new(-i32::MAX, i32::MAX).abs(), Vec2::new(i32::MAX, i32::MAX));
}

#[test]
fn addition_and_subtraction() {
    assert_eq!(Vec2::new(1, 2) + Vec2::new(10, -20), Vec2::new(11, -18));
    assert_eq!(Vec2::new(1, 2) - Vec2::new(10, -20), Vec2::new(-9, 22));
    let mut v = Vec2::new(3, 3);
    v += Vec2::up();
    assert_eq!(v, Vec2::new(3, 4));
    v -= Vec2::right();
    assert_eq!(v, Vec2::new(2, 4));
}

#[test]
fn scalar_multiplication() {
    assert_eq!(Vec2::new(2, -3) * 4, Vec2::new(8, -12));
    let mut v = Vec2::new(-1, 5);
    v *= -2;
    assert_eq!(v, Vec2::new(2, -10));
}

#[test]
fn ordering_is_by_column_then_row() {
    assert!(Vec2::new(0, 9) < Vec2::new(1, 0));
    assert!(Vec2::new(1, 0) < Vec2::new(1, 1));
}
