use landmass::math::{div_rounded, isqrt, isqrt_ceil, triangle_area_2};
use landmass::util::ROTATION_ONE;
use landmass::{BoundingBox, CoordinateSystem, Rotation, ThreeD, Transform, TwoD, Vec2, Vec3};

#[test]
fn square_roots_round_down_and_up() {
    assert_eq!(isqrt(0), 0);
    assert_eq!(isqrt(1), 1);
    assert_eq!(isqrt(15), 3);
    assert_eq!(isqrt(16), 4);
    assert_eq!(isqrt(17), 4);
    assert_eq!(isqrt(u128::MAX), u64::MAX);
    assert_eq!(isqrt_ceil(0), 0);
    assert_eq!(isqrt_ceil(16), 4);
    assert_eq!(isqrt_ceil(17), 5);
}

#[test]
fn division_rounds_to_nearest() {
    assert_eq!(div_rounded(7, 2), 4);
    assert_eq!(div_rounded(-7, 2), -3);
    assert_eq!(div_rounded(5, 3), 2);
    assert_eq!(div_rounded(-5, 3), -2);
    assert_eq!(div_rounded(4, 3), 1);
    assert_eq!(div_rounded(-4, 3), -1);
    assert_eq!(div_rounded(0, 5), 0);
}

#[test]
fn distances_are_measured_on_the_lattice() {
    let a = Vec3::new(0, 0, 0);
    let b = Vec3::new(3, 4, 12);
    assert_eq!(a.distance_squared(b), 169);
    assert_eq!(a.distance(b), 13);
    assert_eq!(a.distance_ceil(b), 13);
    let c = Vec3::new(1, 1, 0);
    assert_eq!(a.distance(c), 1);
    assert_eq!(a.distance_ceil(c), 2);
    let far = Vec3::new(i32::MAX, i32::MAX, i32::MAX);
    let near = Vec3::new(i32::MIN, i32::MIN, i32::MIN);
    assert_eq!(far.distance(near), 7439101571);
}

#[test]
fn sums_and_differences_saturate() {
    let a = Vec3::new(i32::MAX, -5, 7);
    let b = Vec3::new(1, i32::MIN, 3);
    assert_eq!(a.plus(b), Vec3::new(i32::MAX, i32::MIN, 10));
    assert_eq!(a.minus(b), Vec3::new(i32::MAX - 1, i32::MAX - 4, 4));
    assert_eq!(b.minus(a), Vec3::new(i32::MIN + 2, i32::MIN + 5, -4));
    assert_eq!(Vec3::new(i32::MIN, 0, 0).minus(Vec3::new(1, 0, 0)), Vec3::new(i32::MIN, 0, 0));
}

#[test]
fn signed_areas_tell_sides() {
    let a = Vec3::new(0, 9, 0);
    let b = Vec3::new(2, -9, 0);
    assert_eq!(triangle_area_2(a, b, Vec3::new(0, 0, 3)), 6);
    assert_eq!(triangle_area_2(a, b, Vec3::new(0, 0, -3)), -6);
    assert_eq!(triangle_area_2(a, b, Vec3::new(5, 0, 0)), 0);
}

#[test]
fn boxes_grow_and_meet() {
    let empty = BoundingBox::Empty;
    assert!(empty.is_empty());
    let one = empty.expand_to_point(Vec3::new(1, 2, 3));
    assert_eq!(one, BoundingBox::Box { min: Vec3::new(1, 2, 3), max: Vec3::new(1, 2, 3) });
    let two = one.expand_to_point(Vec3::new(-1, 5, 0));
    assert_eq!(two, BoundingBox::Box { min: Vec3::new(-1, 2, 0), max: Vec3::new(1, 5, 3) });
    assert!(two.contains_point(Vec3::new(0, 3, 1)));
    assert!(!two.contains_point(Vec3::new(0, 6, 1)));
    assert_eq!(
        two.expand_by_size(2),
        BoundingBox::Box { min: Vec3::new(-3, 0, -2), max: Vec3::new(3, 7, 5) }
    );
    assert_eq!(empty.expand_by_size(2), BoundingBox::Empty);
    let other = BoundingBox::Box { min: Vec3::new(1, 5, 3), max: Vec3::new(9, 9, 9) };
    assert!(two.intersects_bounds(&other));
    assert!(!two.intersects_bounds(&BoundingBox::Box {
        min: Vec3::new(2, 5, 3),
        max: Vec3::new(9, 9, 9)
    }));
    assert!(!two.intersects_bounds(&empty));
    assert_eq!(two.expand_to_bounds(&other), BoundingBox::Box {
        min: Vec3::new(-1, 2, 0),
        max: Vec3::new(9, 9, 9)
    });
    assert_eq!(BoundingBox::new_box(Vec3::new(1, 0, 0), Vec3::new(0, 0, 0)), None);
    assert!(BoundingBox::new_box(Vec3::new(0, 0, 0), Vec3::new(0, 0, 0)).unwrap().is_valid());
}

#[test]
fn transforms_turn_and_move() {
    let p = Vec3::new(10, 1, 2);
    assert_eq!(Transform::identity().apply(p), p);
    let moved = Transform { translation: Vec3::new(100, 10, -100), rotation: Rotation::identity() };
    assert_eq!(moved.apply(p), Vec3::new(110, 11, -98));
    assert_eq!(moved.inverse_apply(Vec3::new(110, 11, -98)), p);
    // A quarter turn about the y axis takes x to -z.
    let quarter = Transform { translation: Vec3::new(0, 0, 0), rotation: Rotation::quarter_turns(1) };
    assert_eq!(quarter.apply(Vec3::new(10, 1, 0)), Vec3::new(0, 1, -10));
    assert_eq!(quarter.apply(Vec3::new(0, 1, 10)), Vec3::new(10, 1, 0));
    assert_eq!(quarter.inverse_apply(quarter.apply(p)), p);
    // An eighth of a turn, given to the nearest 2^-30.
    let eighth = Transform {
        translation: Vec3::new(0, 0, 0),
        rotation: Rotation { cos: 759250125, sin: 759250125 },
    };
    assert_eq!(ROTATION_ONE, 1 << 30);
    assert_eq!(eighth.apply(Vec3::new(1000, 0, 0)), Vec3::new(707, 0, -707));
    assert_eq!(eighth.apply(Vec3::new(1000, 0, 1000)), Vec3::new(1414, 0, 0));
    // Bounds follow the corners.
    let bounds = BoundingBox::Box { min: Vec3::new(0, 0, 0), max: Vec3::new(10, 5, 20) };
    assert_eq!(
        bounds.transform(&quarter),
        BoundingBox::Box { min: Vec3::new(0, 0, -10), max: Vec3::new(20, 5, 0) }
    );
}

#[test]
fn coordinates_convert_both_ways() {
    assert_eq!(TwoD::to_internal(&Vec2 { x: 3, y: 4 }), Vec3::new(3, 0, 4));
    assert_eq!(TwoD::from_internal(&Vec3::new(3, 9, 4)), Vec2 { x: 3, y: 4 });
    assert_eq!(ThreeD::to_internal(&Vec3::new(3, 9, 4)), Vec3::new(3, 9, 4));
    assert_eq!(ThreeD::from_internal(&Vec3::new(3, 9, 4)), Vec3::new(3, 9, 4));
}
