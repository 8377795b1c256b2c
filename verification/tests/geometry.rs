use plane_ransac::arith::{floor_sqrt, greatest_common_divisor, magnitude, magnitude_wide};
use plane_ransac::plane3d::Plane;
use plane_ransac::point3d::{Point3D, COORD_LIMIT};
use plane_ransac::vector3d::Vector3D;

fn at(x: i32, y: i32, z: i32) -> Point3D {
    Point3D::new(x, y, z, 0, 0, 0, 0, 0)
}

#[test]
fn cross_of_axes() {
    let x = Vector3D::new(1, 0, 0);
    let y = Vector3D::new(0, 1, 0);
    assert_eq!(x.cross(&y), Vector3D::new(0, 0, 1));
    assert_eq!(y.cross(&x), Vector3D::new(0, 0, -1));
}

#[test]
fn cross_of_general_vectors() {
    let u = Vector3D::new(3, 4, 5);
    let v = Vector3D::new(-3, -2, 2);
    assert_eq!(u.cross(&v), Vector3D::new(18, -21, 6));
}

#[test]
fn cross_of_parallel_vectors_is_zero() {
    let u = Vector3D::new(2, -4, 6);
    let v = Vector3D::new(-3, 6, -9);
    assert_eq!(u.cross(&v), Vector3D::new(0, 0, 0));
}

#[test]
fn cross_at_the_edge_of_the_range() {
    let u = Vector3D::new(0, 3_037_000_499, 0);
    let v = Vector3D::new(0, 0, 3_037_000_499);
    assert_eq!(u.cross(&v), Vector3D::new(9_223_372_030_926_249_001, 0, 0));
}

#[test]
fn sub_is_component_wise() {
    let u = Vector3D::new(3, 4, 5);
    let v = Vector3D::new(-3, 10, 5);
    assert_eq!(u.sub(v), Vector3D::new(6, -6, 0));
}

#[test]
fn normalize_divides_by_the_content() {
    assert_eq!(Vector3D::new(6, -4, 0).normalize(), Vector3D::new(3, -2, 0));
    assert_eq!(Vector3D::new(12, 18, -30).normalize(), Vector3D::new(2, 3, -5));
    assert_eq!(Vector3D::new(0, 0, -7).normalize(), Vector3D::new(0, 0, -1));
    assert_eq!(Vector3D::new(3, 5, 7).normalize(), Vector3D::new(3, 5, 7));
}

#[test]
fn normalize_of_zero_is_zero() {
    assert_eq!(Vector3D::new(0, 0, 0).normalize(), Vector3D::new(0, 0, 0));
}

#[test]
fn normalize_handles_the_least_integer() {
    assert_eq!(Vector3D::new(i64::MIN, 0, 0).normalize(), Vector3D::new(-1, 0, 0));
    assert_eq!(Vector3D::new(i64::MIN, 1, 0).normalize(), Vector3D::new(i64::MIN, 1, 0));
}

#[test]
fn normalize_is_invariant_under_positive_scaling() {
    let v = Vector3D::new(2, -3, 7);
    let scaled = Vector3D::new(2 * 35, -3 * 35, 7 * 35);
    assert_eq!(scaled.normalize(), v.normalize());
}

#[test]
fn greatest_common_divisor_values() {
    assert_eq!(greatest_common_divisor(12, 18), 6);
    assert_eq!(greatest_common_divisor(18, 12), 6);
    assert_eq!(greatest_common_divisor(0, 5), 5);
    assert_eq!(greatest_common_divisor(5, 0), 5);
    assert_eq!(greatest_common_divisor(0, 0), 0);
    assert_eq!(greatest_common_divisor(17, 31), 1);
    assert_eq!(greatest_common_divisor(u64::MAX, u64::MAX), u64::MAX);
}

#[test]
fn floor_sqrt_values() {
    assert_eq!(floor_sqrt(0), 0);
    assert_eq!(floor_sqrt(1), 1);
    assert_eq!(floor_sqrt(3), 1);
    assert_eq!(floor_sqrt(4), 2);
    assert_eq!(floor_sqrt(24), 4);
    assert_eq!(floor_sqrt(25), 5);
    assert_eq!(floor_sqrt(1_000_000_000_000), 1_000_000);
    assert_eq!(floor_sqrt(u128::MAX), u64::MAX);
}

#[test]
fn magnitude_values() {
    assert_eq!(magnitude(0), 0);
    assert_eq!(magnitude(-5), 5);
    assert_eq!(magnitude(5), 5);
    assert_eq!(magnitude(i64::MIN), 9_223_372_036_854_775_808);
    assert_eq!(magnitude_wide(-5), 5);
    assert_eq!(magnitude_wide(i128::MIN), 170_141_183_460_469_231_731_687_303_715_884_105_728);
}

#[test]
fn plane_new_keeps_coefficients_and_colour() {
    let plane = Plane::new(1, -2, 3, -4, [9, 8, 7]);
    assert_eq!((plane.a, plane.b, plane.c, plane.d), (1, -2, 3, -4));
    assert_eq!(plane.color, [9, 8, 7]);
    let bare = Plane::new_without_color(5, 6, 7, 8);
    assert_eq!((bare.a, bare.b, bare.c, bare.d), (5, 6, 7, 8));
    assert_eq!(bare.color, [0, 0, 0]);
}

#[test]
fn plane_through_three_points() {
    let plane = Plane::gen_plane_from_points(&at(0, 0, 0), &at(1, 0, 0), &at(0, 1, 0));
    assert_eq!((plane.a, plane.b, plane.c, plane.d), (0, 0, 1, 0));
    let plane = Plane::gen_plane_from_points(&at(1, 2, 3), &at(4, 6, 8), &at(-2, 0, 5));
    assert_eq!((plane.a, plane.b, plane.c, plane.d), (18, -21, 6, 6));
}

#[test]
fn plane_through_points_is_not_normalized() {
    let plane = Plane::gen_plane_from_points(&at(0, 0, 0), &at(10, 0, 0), &at(0, 10, 0));
    assert_eq!((plane.a, plane.b, plane.c, plane.d), (0, 0, 100, 0));
    assert_eq!(plane.get_normal_vector(), Vector3D::new(0, 0, 1));
}

#[test]
fn plane_through_collinear_points_is_degenerate() {
    let plane = Plane::gen_plane_from_points(&at(0, 0, 0), &at(1, 1, 1), &at(5, 5, 5));
    assert!(plane.is_degenerate());
    let plane = Plane::gen_plane_from_points(&at(3, 4, 5), &at(3, 4, 5), &at(0, 1, 0));
    assert!(plane.is_degenerate());
    let plane = Plane::gen_plane_from_points(&at(0, 0, 0), &at(1, 0, 0), &at(0, 1, 0));
    assert!(!plane.is_degenerate());
}

#[test]
fn plane_through_points_at_the_limit() {
    let l = COORD_LIMIT;
    let plane = Plane::gen_plane_from_points(&at(-l, -l, -l), &at(l, -l, l), &at(-l, l, l));
    let two_l = 2 * l as i64;
    // (2l, 0, 2l) x (0, 2l, 2l) = (-4l^2, -4l^2, 4l^2)
    assert_eq!((plane.a, plane.b, plane.c), (-two_l * two_l, -two_l * two_l, two_l * two_l));
    assert_eq!(plane.d, -(two_l * two_l) * (l as i64));
    for p in [at(-l, -l, -l), at(l, -l, l), at(-l, l, l)] {
        assert_eq!(p.distance_to_plane(&plane), 0);
    }
    // |n . p + d| = 16 l^3 at (l, l, -l); the normal is 4 l^2 sqrt(3) long
    assert_eq!(at(l, l, -l).distance_to_plane(&plane), 1_210_791);
}

#[test]
fn normal_vector_is_the_primitive_direction() {
    assert_eq!(Plane::new_without_color(18, -21, 6, 6).get_normal_vector(), Vector3D::new(6, -7, 2));
    assert_eq!(Plane::new_without_color(0, 0, 0, 5).get_normal_vector(), Vector3D::new(0, 0, 0));
}

#[test]
fn distance_to_plane_values() {
    let plane = Plane::new_without_color(3, 4, 0, 0);
    assert_eq!(at(5, 0, 0).distance_to_plane(&plane), 3);
    assert_eq!(at(0, 0, 7).distance_to_plane(&plane), 0);
    assert_eq!(at(-5, 0, 0).distance_to_plane(&plane), 3);
    let plane = Plane::new_without_color(0, 0, 1, 0);
    assert_eq!(at(4, 4, 5).distance_to_plane(&plane), 5);
    assert_eq!(at(4, 4, -5).distance_to_plane(&plane), 5);
}

#[test]
fn distance_to_plane_is_rounded_down() {
    // 3 / sqrt(2) = 2.12...
    assert_eq!(at(3, 0, 0).distance_to_plane(&Plane::new_without_color(1, 1, 0, 0)), 2);
    // the plane z = 1.5
    let plane = Plane::new_without_color(0, 0, 2, -3);
    assert_eq!(at(0, 0, 0).distance_to_plane(&plane), 1);
    assert_eq!(at(0, 0, 1).distance_to_plane(&plane), 0);
    assert_eq!(at(0, 0, 2).distance_to_plane(&plane), 0);
    assert_eq!(at(0, 0, 3).distance_to_plane(&plane), 1);
    assert_eq!(at(0, 0, 4).distance_to_plane(&plane), 2);
}

#[test]
fn distance_to_plane_uses_the_offset() {
    let plane = Plane::new_without_color(0, 0, 1, -10);
    assert_eq!(at(0, 0, 10).distance_to_plane(&plane), 0);
    assert_eq!(at(0, 0, 0).distance_to_plane(&plane), 10);
    assert_eq!(at(0, 0, 25).distance_to_plane(&plane), 15);
}

#[test]
fn distance_is_invariant_under_scaling_the_plane() {
    let points = [at(3, 0, 0), at(-7, 11, 2), at(100, -250, 33), at(0, 0, 0)];
    let base = (2i64, -3i64, 6i64, -5i64);
    for k in [1i64, -1, 2, -3, 1000, -123_456] {
        let plane = Plane::new_without_color(base.0, base.1, base.2, base.3);
        let scaled = Plane::new_without_color(k * base.0, k * base.1, k * base.2, k * base.3);
        for p in points.iter() {
            assert_eq!(p.distance_to_plane(&scaled), p.distance_to_plane(&plane));
        }
    }
}

#[test]
fn plane_through_points_holds_them() {
    let triples = [
        (at(1, 2, 3), at(4, 6, 8), at(-2, 0, 5)),
        (at(0, 0, 0), at(1, 0, 0), at(0, 1, 0)),
        (at(-500_000, 3, 77), at(12, 400_000, -9), at(1, 1, 524_288)),
    ];
    for (first, second, third) in triples.iter() {
        let plane = Plane::gen_plane_from_points(first, second, third);
        assert!(!plane.is_degenerate());
        assert_eq!(first.distance_to_plane(&plane), 0);
        assert_eq!(second.distance_to_plane(&plane), 0);
        assert_eq!(third.distance_to_plane(&plane), 0);
    }
}

#[test]
fn point_new_keeps_every_field() {
    let p = Point3D::new(1, 2, 3, 4, 5, 6, 7, 8);
    assert_eq!(
        (p.x, p.y, p.z, p.intensity, p.normal_x, p.normal_y, p.normal_z, p.curvature),
        (1, 2, 3, 4, 5, 6, 7, 8)
    );
}

#[test]
fn points_are_equal_field_by_field() {
    assert_eq!(Point3D::new(1, 2, 3, 4, 5, 6, 7, 8), Point3D::new(1, 2, 3, 4, 5, 6, 7, 8));
    assert_ne!(Point3D::new(1, 2, 3, 4, 5, 6, 7, 8), Point3D::new(1, 2, 3, 4, 5, 6, 7, 9));
    assert_ne!(Point3D::new(1, 2, 3, 4, 5, 6, 7, 8), Point3D::new(1, 2, 3, 0, 5, 6, 7, 8));
}

#[test]
fn range_of_coordinates() {
    assert!(at(COORD_LIMIT, -COORD_LIMIT, 0).is_in_range());
    assert!(!at(COORD_LIMIT + 1, 0, 0).is_in_range());
    assert!(!at(0, -COORD_LIMIT - 1, 0).is_in_range());
    assert!(!at(0, 0, i32::MIN).is_in_range());
}
