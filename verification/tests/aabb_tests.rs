use pathtracer::aabb::{bits_of_key, key_of_bits, Coord3, AABB};

#[test]
fn surrounding_box_takes_componentwise_extremes() {
    let a = AABB::new(Coord3::new(1, 2, 3), Coord3::new(4, 5, 6));
    let b = AABB::new(Coord3::new(0, 7, 2), Coord3::new(9, 4, 8));
    let u = AABB::surrounding_box(&a, &b);
    assert_eq!(u.minimum.x, 0);
    assert_eq!(u.minimum.y, 2);
    assert_eq!(u.minimum.z, 2);
    assert_eq!(u.maximum.x, 9);
    assert_eq!(u.maximum.y, 5);
    assert_eq!(u.maximum.z, 8);
}

#[test]
fn surrounding_box_is_commutative() {
    let a = AABB::new(Coord3::new(10, 0, 5), Coord3::new(20, 9, 15));
    let b = AABB::new(Coord3::new(2, 3, 11), Coord3::new(30, 4, 12));
    assert_eq!(AABB::surrounding_box(&a, &b), AABB::surrounding_box(&b, &a));
}

#[test]
fn surrounding_box_is_associative() {
    let a = AABB::new(Coord3::new(1, 1, 1), Coord3::new(2, 2, 2));
    let b = AABB::new(Coord3::new(0, 5, 0), Coord3::new(9, 6, 1));
    let c = AABB::new(Coord3::new(4, 0, 7), Coord3::new(5, 8, 9));
    let ab_c = AABB::surrounding_box(&AABB::surrounding_box(&a, &b), &c);
    let a_bc = AABB::surrounding_box(&a, &AABB::surrounding_box(&b, &c));
    assert_eq!(ab_c, a_bc);
}

#[test]
fn surrounding_box_all_handles_empty_and_full_lists() {
    let empty: Vec<AABB> = Vec::new();
    assert!(AABB::surrounding_box_all(&empty).is_none());

    let boxes = vec![
        AABB::new(Coord3::new(1, 2, 3), Coord3::new(4, 5, 6)),
        AABB::new(Coord3::new(0, 7, 2), Coord3::new(9, 4, 8)),
        AABB::new(Coord3::new(3, 1, 9), Coord3::new(3, 1, 9)),
    ];
    let u = AABB::surrounding_box_all(&boxes).unwrap();
    assert_eq!(u.minimum, Coord3::new(0, 1, 2));
    assert_eq!(u.maximum, Coord3::new(9, 5, 9));
}

#[test]
fn contains_point_includes_borders_and_rejects_outside() {
    let b = AABB::new(Coord3::new(10, 10, 10), Coord3::new(20, 20, 20));
    assert!(b.contains_point(Coord3::new(10, 20, 15)));
    assert!(b.contains_point(Coord3::new(20, 10, 10)));
    assert!(!b.contains_point(Coord3::new(9, 15, 15)));
    assert!(!b.contains_point(Coord3::new(15, 21, 15)));
    assert!(!b.contains_point(Coord3::new(15, 15, 0)));
}

#[test]
fn axis_comparators_order_by_minimum_corner() {
    let a = AABB::new(Coord3::new(1, 9, 4), Coord3::new(2, 10, 5));
    let b = AABB::new(Coord3::new(3, 2, 4), Coord3::new(4, 3, 5));
    assert!(AABB::box_x_compare(&a, &b));
    assert!(!AABB::box_x_compare(&b, &a));
    assert!(AABB::box_y_compare(&b, &a));
    assert!(!AABB::box_y_compare(&a, &b));
    assert!(!AABB::box_z_compare(&a, &b));
    assert!(!AABB::box_z_compare(&b, &a));
    assert!(AABB::box_compare(&a, &b, 0));
    assert!(!AABB::box_compare(&a, &b, 1));
}

#[test]
fn coordinate_keys_round_trip_and_order() {
    let values: Vec<f64> = vec![-1000.5, -2.0, -0.0, 0.0, 0.25, 3.5, 99999.0];
    for &v in &values {
        assert_eq!(bits_of_key(key_of_bits(v.to_bits())), v.to_bits());
    }
    for pair in values.windows(2) {
        if pair[0] < pair[1] {
            assert!(key_of_bits(pair[0].to_bits()) < key_of_bits(pair[1].to_bits()));
        }
    }
}
