use raytracer::geometry::{Point, Transform, TransformKind, Vector, SCALE};
use raytracer::ray::{Ray, Sphere};
use raytracer::shape::{intersect_shape, Material};

const ONE: i64 = SCALE;

fn pt(x: i64, y: i64, z: i64) -> Point {
    Point::new(x * ONE, y * ONE, z * ONE)
}

fn vc(x: i64, y: i64, z: i64) -> Vector {
    Vector::new(x * ONE, y * ONE, z * ONE)
}

fn ts(r: &Ray, s: &Sphere) -> Option<(i128, i128)> {
    r.intersect(s).map(|xs| (xs.get(0).t(), xs.get(1).t()))
}

#[test]
fn create_sphere() {
    let sphere = Sphere::new();
    let resulting_sphere = Sphere {
        transform: Transform::new(TransformKind::Identity),
        material: Material::standard(),
    };
    assert_eq!(sphere, resulting_sphere);
}

#[test]
fn transform_sphere() {
    let mut sphere = Sphere::new();
    let transform = Transform::new(TransformKind::Translate(5 * ONE, 0, 0));
    sphere.set_transform(&transform);
    assert_eq!(*sphere.get_transform(), transform);
    assert_eq!(*sphere.get_material(), Material::standard());
}

#[test]
fn create_ray() {
    let origin = pt(1, 2, 3);
    let direction = vc(6, 5, 4);
    let ray = Ray::new(origin, direction);
    let resulting_ray = Ray {
        origin: pt(1, 2, 3),
        direction: vc(6, 5, 4),
    };
    assert_eq!(ray, resulting_ray);
}

#[test]
fn ray_position() {
    let ray = Ray::new(pt(2, 3, 4), vc(1, 0, 0));
    assert_eq!(ray.position(0), pt(2, 3, 4));
    assert_eq!(ray.position(ONE as i128), pt(3, 3, 4));
    assert_eq!(ray.position(-(ONE as i128)), pt(1, 3, 4));
    assert_eq!(ray.position(2_500_000), Point::new(4_500_000, 3 * ONE, 4 * ONE));
}

#[test]
fn ray_intersects_sphere_at_two_points() {
    let ray = Ray::new(pt(0, 0, -5), vc(0, 0, 1));
    let sphere = Sphere::new();
    let intersections = ray.intersect(&sphere).unwrap();
    assert_eq!(intersections.get(0).t(), 4_000_000);
    assert_eq!(intersections.get(1).t(), 6_000_000);
}

#[test]
fn ray_intersects_sphere_at_a_tangent() {
    let ray = Ray::new(pt(0, 1, -5), vc(0, 0, 1));
    let sphere = Sphere::new();
    let intersections = ray.intersect(&sphere).unwrap();
    assert_eq!(intersections.get(0).t(), 5_000_000);
    assert_eq!(intersections.get(1).t(), 5_000_000);
}

#[test]
fn ray_does_not_intersect_sphere() {
    let ray = Ray::new(pt(0, 2, -5), vc(0, 0, 1));
    let sphere = Sphere::new();
    let intersections = ray.intersect(&sphere);
    assert!(intersections.is_none());
}

#[test]
fn ray_originates_within_sphere() {
    let ray = Ray::new(pt(0, 0, 0), vc(0, 0, 1));
    let sphere = Sphere::new();
    let intersections = ray.intersect(&sphere).unwrap();
    assert_eq!(intersections.get(0).t(), -1_000_000);
    assert_eq!(intersections.get(1).t(), 1_000_000);
}

#[test]
fn ray_originates_after_sphere() {
    let ray = Ray::new(pt(0, 0, 5), vc(0, 0, 1));
    let sphere = Sphere::new();
    let intersections = ray.intersect(&sphere).unwrap();
    assert_eq!(intersections.get(0).t(), -6_000_000);
    assert_eq!(intersections.get(1).t(), -4_000_000);
}

#[test]
fn ray_intersects_transformed_sphere() {
    let ray = Ray::new(pt(0, 0, -5), vc(0, 0, 1));
    let mut sphere = Sphere::new();
    sphere.set_transform(&Transform::new(TransformKind::Scale(2 * ONE, 2 * ONE, 2 * ONE)));
    let intersections = ray.intersect(&sphere).unwrap();
    assert_eq!(intersections.get(0).t(), 3_000_000);
    assert_eq!(intersections.get(1).t(), 7_000_000);
}

#[test]
fn ray_does_not_intersect_transformed_sphere() {
    let ray = Ray::new(pt(0, 0, -5), vc(0, 0, 1));
    let mut sphere = Sphere::new();
    sphere.set_transform(&Transform::new(TransformKind::Translate(5 * ONE, 0, 0)));
    let intersections = ray.intersect(&sphere);
    assert!(intersections.is_none());
}

#[test]
fn intersections_symmetric_about_closest_approach() {
    let sphere = Sphere::new();
    let ray = Ray::new(Point::new(300_000, -200_000, -4 * ONE), Vector::new(0, 100_000, ONE));
    let (t1, t2) = ts(&ray, &sphere).unwrap();
    // closest approach along this ray: t = -(d . o) / (d . d)
    let d_o: i128 = 100_000 * -200_000 + ONE as i128 * -4 * ONE as i128;
    let d_d: i128 = 100_000 * 100_000 + ONE as i128 * ONE as i128;
    let tc = (-d_o * ONE as i128).div_euclid(d_d);
    assert!(t1 < tc && tc < t2);
    assert!(((t2 - tc) - (tc - t1)).abs() <= 1);
}

#[test]
fn tangent_ray_off_axis_gives_equal_parameters() {
    let sphere = Sphere::new();
    let ray = Ray::new(pt(-1, 0, -3), vc(0, 0, 1));
    let (t1, t2) = ts(&ray, &sphere).unwrap();
    assert_eq!(t1, t2);
    assert_eq!(t1, 3_000_000);
}

#[test]
fn ray_just_outside_misses() {
    let sphere = Sphere::new();
    let ray = Ray::new(Point::new(0, ONE + 1, -5 * ONE), vc(0, 0, 1));
    assert!(ts(&ray, &sphere).is_none());
}

#[test]
fn ray_without_direction_has_no_intersection() {
    let sphere = Sphere::new();
    let ray = Ray::new(pt(0, 0, -5), vc(0, 0, 0));
    assert!(ts(&ray, &sphere).is_none());
}

#[test]
fn interior_origin_off_centre_straddles_zero() {
    let sphere = Sphere::new();
    let ray = Ray::new(Point::new(0, 0, 500_000), vc(0, 0, 1));
    let (t1, t2) = ts(&ray, &sphere).unwrap();
    assert_eq!(t1, -1_500_000);
    assert_eq!(t2, 500_000);
}

#[test]
fn transform_round_trip_restores_ray() {
    let ray = Ray::new(Point::new(1_234_567, -7, 42), Vector::new(-3, 999_999, 5));
    let m = Transform::new(TransformKind::Scale(3 * ONE, 7 * ONE, 2 * ONE));
    assert_eq!(ray.transform(&m).transform_inverse(&m), ray);
    let m = Transform::new(TransformKind::Translate(-5, 6 * ONE, 11));
    assert_eq!(ray.transform(&m).transform_inverse(&m), ray);
}

#[test]
fn transform_moves_points_and_scales_vectors() {
    let ray = Ray::new(pt(1, 2, 3), vc(1, 1, 1));
    let moved = ray.transform(&Transform::new(TransformKind::Translate(ONE, 0, 0)));
    assert_eq!(moved, Ray::new(pt(2, 2, 3), vc(1, 1, 1)));
    let scaled = ray.transform(&Transform::new(TransformKind::Scale(2 * ONE, 3 * ONE, 4 * ONE)));
    assert_eq!(scaled, Ray::new(pt(2, 6, 12), vc(2, 3, 4)));
}

#[test]
fn normal_on_scaled_sphere_is_unit() {
    let mut sphere = Sphere::new();
    sphere.set_transform(&Transform::new(TransformKind::Scale(ONE, 2 * ONE, ONE)));
    let n = sphere.normal_at(Point::new(0, 2 * ONE, 0));
    assert_eq!(n, vc(0, 1, 0));
    let n = Sphere::new().normal_at(Point::new(600_000, 800_000, 0));
    assert_eq!(n, Vector::new(600_000, 800_000, 0));
}

#[test]
fn shape_intersection_goes_through_local_space() {
    let ray = Ray::new(pt(0, 0, -5), vc(0, 0, 1));
    let mut sphere = Sphere::new();
    sphere.set_transform(&Transform::new(TransformKind::Translate(0, 0, 2 * ONE)));
    assert_eq!(intersect_shape(&sphere, &ray), Some((6_000_000, 8_000_000)));
    sphere.set_transform(&Transform::new(TransformKind::Translate(0, 3 * ONE, 0)));
    assert_eq!(intersect_shape(&sphere, &ray), None);
}

#[test]
fn interior_origin_near_surface_has_positive_upper_root() {
    let sphere = Sphere::new();
    let ray = Ray::new(Point::new(0, 0, 999_999), Vector::new(0, 0, 1 << 30));
    let (t1, t2) = ts(&ray, &sphere).unwrap();
    assert!(t1 < 0);
    assert!(t2 > 0);
    assert_eq!(t2, 1);
}

#[test]
fn short_chord_keeps_roots_apart() {
    let sphere = Sphere::new();
    let ray = Ray::new(Point::new(0, 999_999, -5 * ONE), Vector::new(0, 0, 1 << 30));
    let (t1, t2) = ts(&ray, &sphere).unwrap();
    assert!(t1 < t2);
}

#[test]
fn half_size_sphere_is_struck_closer_together() {
    let ray = Ray::new(pt(0, 0, -5), vc(0, 0, 1));
    let mut sphere = Sphere::new();
    sphere.set_transform(&Transform::new(TransformKind::Scale(ONE / 2, ONE / 2, ONE / 2)));
    assert_eq!(ts(&ray, &sphere), Some((4_500_000, 5_500_000)));
}

#[test]
fn fractional_scale_round_trip_is_within_tolerance() {
    let ray = Ray::new(Point::new(-7, 3, 1_000_001), Vector::new(5, -1, ONE));
    let s = ONE / 2;
    let m = Transform::new(TransformKind::Scale(s, s, s));
    let back = ray.transform(&m).transform_inverse(&m);
    assert_eq!(back.origin, Point::new(-8, 2, 1_000_000));
    assert_eq!(back.direction, Vector::new(4, -2, ONE));
    for (c, b) in [
        (ray.origin.x, back.origin.x),
        (ray.origin.y, back.origin.y),
        (ray.origin.z, back.origin.z),
        (ray.direction.x, back.direction.x),
        (ray.direction.y, back.direction.y),
        (ray.direction.z, back.direction.z),
    ] {
        assert!(c - b >= 0);
        assert!((c - b) * s < ONE + s);
    }
}
