use knot_charge::plane::{
    cross, dot, point_difference,
    does_vector_pass_through_triangle_section, Plane, Point, RationalPoint, Ray, Triangle, Vector3,
};

fn p(x: i64, y: i64, z: i64) -> Point {
    Point::new(x, y, z)
}

fn v(x: i64, y: i64, z: i64) -> Vector3 {
    Vector3 { x, y, z }
}

fn flat_triangle() -> Triangle {
    Triangle::new(p(0, 0, 0), p(4000, 0, 0), p(0, 4000, 0))
}

#[test]
fn ray_through_interior_hits_at_exact_point() {
    let ray = Ray::new(p(1000, 1000, 5000), v(0, 0, -2));
    let hit = flat_triangle().intersect_ray(&ray, false).unwrap();
    assert_eq!(hit.den, 32000000);
    assert_eq!(hit.x / hit.den, 1000);
    assert_eq!(hit.y / hit.den, 1000);
    assert_eq!(hit.z, 0);
    assert_eq!(hit.x % hit.den, 0);
}

#[test]
fn hit_point_is_scale_free_in_direction() {
    let short = Ray::new(p(1000, 1000, 5000), v(0, 0, -1));
    let long = Ray::new(p(1000, 1000, 5000), v(0, 0, -7));
    let a = flat_triangle().intersect_ray(&short, false).unwrap();
    let b = flat_triangle().intersect_ray(&long, false).unwrap();
    assert_eq!(a.x * b.den, b.x * a.den);
    assert_eq!(a.y * b.den, b.y * a.den);
    assert_eq!(a.z * b.den, b.z * a.den);
}

#[test]
fn ray_pointing_away_misses() {
    let ray = Ray::new(p(1000, 1000, 5000), v(0, 0, 3));
    assert!(flat_triangle().intersect_ray(&ray, false).is_none());
}

#[test]
fn ray_outside_triangle_misses() {
    let ray = Ray::new(p(3000, 3000, 5000), v(0, 0, -1));
    assert!(flat_triangle().intersect_ray(&ray, false).is_none());
}

#[test]
fn ray_through_corner_hits() {
    let ray = Ray::new(p(4000, 0, 5000), v(0, 0, -1));
    let hit = flat_triangle().intersect_ray(&ray, false).unwrap();
    assert_eq!(hit.x, 4000 * hit.den);
    assert_eq!(hit.y, 0);
}

#[test]
fn ray_parallel_to_plane_misses() {
    let ray = Ray::new(p(1000, 1000, 0), v(1, 0, 0));
    assert!(flat_triangle().intersect_ray(&ray, false).is_none());
    let above = Ray::new(p(-1000, 1000, 10), v(1, 0, 0));
    assert!(flat_triangle().intersect_ray(&above, false).is_none());
}

#[test]
fn nearly_parallel_ray_still_hits() {
    // The smallest tilt out of the plane still gives a nonzero determinant.
    let ray = Ray::new(p(-3999000, 1000, 1), v(4000000, 0, -1));
    let hit = flat_triangle().intersect_ray(&ray, false);
    assert!(hit.is_some());
    let hit = hit.unwrap();
    assert_eq!(hit.z, 0);
    assert_eq!(hit.x, 1000 * hit.den);
}

#[test]
fn ray_meeting_triangle_at_its_origin_misses() {
    let ray = Ray::new(p(1000, 1000, 0), v(0, 0, 1));
    assert!(flat_triangle().intersect_ray(&ray, false).is_none());
    let down = Ray::new(p(1000, 1000, 0), v(0, 0, -1));
    assert!(flat_triangle().intersect_ray(&down, false).is_none());
}

#[test]
fn back_face_culling_rejects_rays_from_behind_the_winding() {
    let from_above = Ray::new(p(1000, 1000, 5000), v(0, 0, -1));
    let from_below = Ray::new(p(1000, 1000, -5000), v(0, 0, 1));
    assert!(flat_triangle().intersect_ray(&from_above, true).is_some());
    assert!(flat_triangle().intersect_ray(&from_below, true).is_none());
    assert!(flat_triangle().intersect_ray(&from_above, false).is_some());
    assert!(flat_triangle().intersect_ray(&from_below, false).is_some());
}

#[test]
fn collinear_triangle_never_hit() {
    let degenerate = Triangle::new(p(0, 0, 0), p(1000, 1000, 1000), p(3000, 3000, 3000));
    for dir in [v(0, 0, -1), v(1, -1, 0), v(-1, 2, -3), v(0, 0, 0)] {
        let ray = Ray::new(p(1000, 0, 2000), dir);
        assert!(degenerate.intersect_ray(&ray, false).is_none());
        assert!(degenerate.intersect_ray(&ray, true).is_none());
    }
    let same_point = Triangle::new(p(5, 5, 5), p(5, 5, 5), p(5, 5, 5));
    let ray = Ray::new(p(0, 0, 0), v(1, 1, 1));
    assert!(same_point.intersect_ray(&ray, false).is_none());
}

#[test]
fn zero_direction_never_hits() {
    let ray = Ray::new(p(1000, 1000, 5000), v(0, 0, 0));
    assert!(flat_triangle().intersect_ray(&ray, false).is_none());
}

#[test]
fn free_function_matches_method() {
    let t = flat_triangle();
    let hit = does_vector_pass_through_triangle_section(
        &t.p0,
        &t.p1,
        &t.p2,
        &p(500, 500, -100),
        &v(0, 0, 1),
        false,
    );
    assert_eq!(hit, Some(RationalPoint { x: 500 * 16000000, y: 500 * 16000000, z: 0, den: 16000000 }));
}

#[test]
fn triangle_normal_follows_winding() {
    assert_eq!(flat_triangle().normal(), v(0, 0, 16000000));
    let flipped = Triangle::new(p(0, 0, 0), p(0, 4000, 0), p(4000, 0, 0));
    assert_eq!(flipped.normal(), v(0, 0, -16000000));
}

#[test]
fn ray_point_at_parameter() {
    let ray = Ray::new(p(1, 2, 3), v(4, 5, 6));
    assert_eq!(ray.point_at_parameter(1, 2), RationalPoint { x: 6, y: 9, z: 12, den: 2 });
}

#[test]
fn plane_through_three_points() {
    let pl = Plane::from_three_points(&p(0, 0, 7), &p(10, 0, 7), &p(0, 10, 7)).unwrap();
    assert_eq!(pl.normal, v(0, 0, 100));
    assert_eq!(pl.d, 700);
    assert!(pl.is_on_plane(&p(-300, 12345, 7)));
    assert!(!pl.is_on_plane(&p(0, 0, 8)));
}

#[test]
fn plane_of_collinear_points_is_none() {
    assert!(Plane::from_three_points(&p(0, 0, 0), &p(1, 2, 3), &p(2, 4, 6)).is_none());
}

#[test]
fn plane_new_holds_its_point() {
    let pl = Plane::new(v(1, 2, 3), p(4, 5, 6));
    assert_eq!(pl.d, 32);
    assert!(pl.is_on_plane(&p(4, 5, 6)));
}

#[test]
fn vector_products_are_exact() {
    assert_eq!(point_difference(&p(5, -7, 9), &p(1, 2, 3)), v(4, -9, 6));
    assert_eq!(cross(&v(1, 0, 0), &v(0, 1, 0)), v(0, 0, 1));
    assert_eq!(cross(&v(2, 3, 4), &v(5, 6, 7)), v(-3, 6, -3));
    assert_eq!(dot(&v(2, 3, 4), &v(5, 6, 7)), 56);
    let big = 33554432;
    let c = cross(&v(big, 0, 0), &v(0, big, 0));
    assert_eq!(c, v(0, 0, 1125899906842624));
    assert_eq!(dot(&v(0, 0, -big), &v(0, 0, 2 * 1125899906842624)), -75557863725914323419136);
}
