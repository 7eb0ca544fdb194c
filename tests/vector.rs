use astar_lib::vector::Vec2;

#[test]
fn vector_vec_test() {
    // On a grid of thousandths: from (0,0) to (1,1).
    let vec_a = Vec2::new(0, 0);
    let vec_b = Vec2::new(1000, 1000);
    let dist = vec_a.dist_to(&vec_b);
    let exact = 1000.0 * (2.0_f64).sqrt();
    assert!(dist as f64 >= exact && (dist as f64 - exact) < 1.0);
    assert_eq!(dist, 1415);
}

#[test]
fn math_helper_vec_test() {
    let vec_a = Vec2::new(0, 0);
    let vec_b = Vec2::new(1000, 1000);
    let dist = vec_a.dist_floor(&vec_b);
    let exact = 1000.0 * (2.0_f64).sqrt();
    assert!(dist as f64 <= exact && (exact - dist as f64) < 1.0);
    assert_eq!(dist, 1414);
}

#[test]
fn exact_lengths() {
    assert_eq!(Vec2::new(3, 4).magnitude(), 5);
    assert_eq!(Vec2::new(3, 4).sq_magnitude(), 25);
    assert_eq!(Vec2::new(1, 1).magnitude(), 2);
    assert_eq!(Vec2::new(0, 0).magnitude(), 0);
    assert_eq!(Vec2::new(-6, 8).dist_to(&Vec2::new(0, 0)), 10);
    assert_eq!(Vec2::new(1, 2).sq_dist_to(&Vec2::new(2, 2)), 1);
    assert_eq!(Vec2::new(1, 2).dist_to(&Vec2::new(2, 2)), 1);
    assert_eq!(Vec2::new(0, 0).dist_floor(&Vec2::new(2, 1)), 2);
    assert_eq!(Vec2::new(0, 0).dist_to(&Vec2::new(2, 1)), 3);
}

#[test]
fn extreme_lengths() {
    let a = Vec2::new(i32::MIN, i32::MIN);
    let b = Vec2::new(i32::MAX, i32::MAX);
    assert_eq!(a.sq_dist_to(&b), 2 * (u32::MAX as u128) * (u32::MAX as u128));
    let exact = (u32::MAX as f64) * (2.0_f64).sqrt();
    assert!((a.dist_to(&b) as f64 - exact).abs() < 2.0);
    assert!(a.dist_floor(&b) <= a.dist_to(&b));
    assert_eq!(Vec2::new(i32::MIN, 0).magnitude(), 1 << 31);
}

#[test]
fn dot_and_orthogonal() {
    let test_a = Vec2::new(1, 0);
    let test_b = Vec2::new(0, 1);
    assert_eq!(test_a.dot(test_b), 0);
    let v = Vec2::new(1, 2);
    let o = v.get_orthogonal();
    assert_eq!(o, Vec2::new(2, -1));
    assert_eq!(v.dot(o), 0);
    assert_eq!(Vec2::new(3, -2).dot(Vec2::new(4, 5)), 2);
    assert_eq!(Vec2::new(i32::MIN, i32::MIN).dot(Vec2::new(i32::MIN, i32::MIN)), 1i128 << 63);
}

#[test]
fn arithmetic() {
    let a = Vec2::new(1, 2);
    let b = Vec2::new(10, -20);
    assert_eq!(a.add(b), Vec2::new(11, -18));
    assert_eq!(b.sub(a), Vec2::new(9, -22));
    assert_eq!(a.scale(-3), Vec2::new(-3, -6));
    assert_eq!(b.get_as_array(), [10, -20]);
}

#[test]
fn combined_array() {
    let a = Vec2::new(1, 2);
    let b = Vec2::new(-3, 4);
    assert_eq!(a.get_combined_as_array(&b), [1, 2, -3, 4]);
}

#[test]
fn array_conversions() {
    let v = Vec2::from([7, -8]);
    assert_eq!(v, Vec2::new(7, -8));
    let a: [i32; 2] = v.into();
    assert_eq!(a, [7, -8]);
}

#[test]
fn unit_diagonal_squared_distance() {
    let vec_a = Vec2::new(0, 0);
    let vec_b = Vec2::new(1, 1);
    assert_eq!(vec_a.sq_dist_to(&vec_b), 2);
    assert_eq!(vec_a.dist_floor(&vec_b), 1);
    assert_eq!(vec_a.dist_to(&vec_b), 2);
}
