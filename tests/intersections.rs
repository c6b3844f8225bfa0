use raytracer::canvas::Colour;
use raytracer::geometry::{Point, Transform, TransformKind, Vector, SCALE};
use raytracer::intersections::{Intersections, RawIntersect, EPSILON};
use raytracer::ray::{Ray, Sphere};
use raytracer::shape::{Lighting, Material};

const ONE: i64 = SCALE;

fn pt(x: i64, y: i64, z: i64) -> Point {
    Point::new(x * ONE, y * ONE, z * ONE)
}

fn vc(x: i64, y: i64, z: i64) -> Vector {
    Vector::new(x * ONE, y * ONE, z * ONE)
}

fn ts(xs: &Intersections) -> Vec<i128> {
    (0..xs.len()).map(|i| xs.get(i).t()).collect()
}

#[test]
fn create_raw_intersect() {
    let sphere = Sphere::new();
    let ray = Ray::new(pt(0, 0, 0), vc(0, 1, 0));
    let raw_intersect = RawIntersect::new(ONE as i128, &sphere, &ray);
    let resulting_intersect = RawIntersect {
        t: ONE as i128,
        object: &sphere,
        ray: &ray,
    };
    assert_eq!(raw_intersect.t, resulting_intersect.t);
    assert!(std::ptr::eq(raw_intersect.object, resulting_intersect.object));
    assert!(std::ptr::eq(raw_intersect.ray, resulting_intersect.ray));
}

#[test]
fn compute_intersect_ray_outside() {
    let ray = Ray::new(pt(0, 0, -5), vc(0, 0, 1));
    let shape = Sphere::new();
    let raw_intersect = RawIntersect::new(4 * ONE as i128, &shape, &ray);
    let computed_intersect = raw_intersect.precompute();
    assert_eq!(computed_intersect.target, pt(0, 0, -1));
    assert_eq!(computed_intersect.eyev, vc(0, 0, -1));
    assert_eq!(computed_intersect.normal, vc(0, 0, -1));
    assert_eq!(computed_intersect.over_point, Point::new(0, 0, -ONE - EPSILON));
}

#[test]
fn compute_intersect_ray_inside() {
    let ray = Ray::new(pt(0, 0, 0), vc(0, 0, 1));
    let shape = Sphere::new();
    let raw_intersect = RawIntersect::new(ONE as i128, &shape, &ray);
    let computed_intersect = raw_intersect.precompute();
    assert_eq!(computed_intersect.target, pt(0, 0, 1));
    assert_eq!(computed_intersect.eyev, vc(0, 0, -1));
    assert_eq!(computed_intersect.inside, true);
    assert_eq!(computed_intersect.normal, vc(0, 0, -1));
}

#[test]
fn intersections_hit() {
    let sphere = Sphere::new();
    let ray = Ray::new(pt(0, 0, 0), vc(0, 1, 0));
    let intersect1 = RawIntersect::new(-(ONE as i128), &sphere, &ray);
    let intersect2 = RawIntersect::new(2 * ONE as i128, &sphere, &ray);
    let intersect3 = RawIntersect::new(3 * ONE as i128, &sphere, &ray);
    let intersections = Intersections::new(vec![intersect1, intersect2, intersect3]);
    let resulting_hit = intersections.get(1);
    assert!(std::ptr::eq(intersections.hit().unwrap(), resulting_hit));
}

#[test]
fn hit_offset_point() {
    let ray = Ray::new(pt(0, 0, -5), vc(0, 0, 1));
    let mut shape = Sphere::new();
    shape.set_transform(&Transform::new(TransformKind::Translate(0, 0, ONE)));
    let raw_intersect = RawIntersect::new(5 * ONE as i128, &shape, &ray);
    let computed_intersect = raw_intersect.precompute();
    assert!(2 * computed_intersect.over_point.z < -EPSILON);
    assert!(computed_intersect.target.z > computed_intersect.over_point.z);
}

#[test]
fn hit_picks_smallest_non_negative() {
    let sphere = Sphere::new();
    let ray = Ray::new(pt(0, 0, 0), vc(0, 1, 0));
    let recs = vec![5, 7, -3, 2]
        .into_iter()
        .map(|t| RawIntersect::new(t * ONE as i128, &sphere, &ray))
        .collect::<Vec<_>>();
    let xs = Intersections::new(recs);
    assert_eq!(xs.hit().unwrap().t(), 2 * ONE as i128);
}

#[test]
fn hit_of_all_negative_is_none() {
    let sphere = Sphere::new();
    let ray = Ray::new(pt(0, 0, 0), vc(0, 1, 0));
    let xs = Intersections::new(vec![
        RawIntersect::new(-2, &sphere, &ray),
        RawIntersect::new(-1, &sphere, &ray),
    ]);
    assert!(xs.hit().is_none());
    assert!(Intersections::default().hit().is_none());
}

#[test]
fn hit_tie_resolves_to_earliest() {
    let a = Sphere::new();
    let b = Sphere::new();
    let ray = Ray::new(pt(0, 0, 0), vc(0, 1, 0));
    let mut xs = Intersections::new(vec![RawIntersect::new(4, &a, &ray)]);
    xs.add_raw_intersect(RawIntersect::new(4, &b, &ray));
    assert!(std::ptr::eq(xs.hit().unwrap().object, &a));
    assert!(std::ptr::eq(xs.get(1).object, &b));
}

#[test]
fn insert_and_merge_keep_order() {
    let sphere = Sphere::new();
    let ray = Ray::new(pt(0, 0, 0), vc(0, 1, 0));
    let mut xs = Intersections::new(vec![
        RawIntersect::new(9, &sphere, &ray),
        RawIntersect::new(-4, &sphere, &ray),
        RawIntersect::new(3, &sphere, &ray),
    ]);
    assert_eq!(ts(&xs), vec![-4, 3, 9]);
    xs.add_raw_intersect(RawIntersect::new(5, &sphere, &ray));
    xs.add_raw_intersect(RawIntersect::new(-10, &sphere, &ray));
    xs.add_raw_intersect(RawIntersect::new(3, &sphere, &ray));
    assert_eq!(ts(&xs), vec![-10, -4, 3, 3, 5, 9]);
    let other = Intersections::new(vec![
        RawIntersect::new(100, &sphere, &ray),
        RawIntersect::new(0, &sphere, &ray),
        RawIntersect::new(-4, &sphere, &ray),
    ]);
    xs.combine_intersections(other);
    assert_eq!(ts(&xs), vec![-10, -4, -4, 0, 3, 3, 5, 9, 100]);
    xs.combine_intersections(Intersections::default());
    assert_eq!(xs.len(), 9);
}

#[test]
fn merging_two_spheres_orders_whole_scene() {
    let near = Sphere::new();
    let mut far = Sphere::new();
    far.set_transform(&Transform::new(TransformKind::Translate(0, 0, 3 * ONE)));
    let ray = Ray::new(pt(0, 0, -5), vc(0, 0, 1));
    let mut xs = ray.intersect(&far).unwrap();
    xs.combine_intersections(ray.intersect(&near).unwrap());
    assert_eq!(ts(&xs), vec![4 * ONE as i128, 6 * ONE as i128, 7 * ONE as i128, 9 * ONE as i128]);
    assert!(std::ptr::eq(xs.hit().unwrap().object, &near));
}

#[test]
fn inside_ray_flips_normal() {
    let mut shape = Sphere::new();
    shape.set_transform(&Transform::new(TransformKind::Scale(2 * ONE, 2 * ONE, 2 * ONE)));
    let ray = Ray::new(pt(0, 0, 0), vc(0, 0, 1));
    let xs = ray.intersect(&shape).unwrap();
    let c = xs.hit().unwrap().precompute();
    assert_eq!(c.target, pt(0, 0, 2));
    assert!(c.inside);
    assert_eq!(c.normal, vc(0, 0, -1));
    assert_eq!(c.over_point, Point::new(0, 0, 2 * ONE - EPSILON));
}

struct EchoLight;

fn echo(material: Material, point: Point, normal: Vector, in_shadow: bool) -> Colour {
    if in_shadow {
        Colour::new(0, 0, material.shininess)
    } else {
        Colour::new(point.z, normal.z, material.shininess)
    }
}

impl Lighting for EchoLight {
    fn shade_spec(
        &self,
        material: Material,
        point: Point,
        _eyev: Vector,
        normal: Vector,
        in_shadow: bool,
    ) -> Colour {
        echo(material, point, normal, in_shadow)
    }

    fn shade_phong(
        &self,
        material: Material,
        point: Point,
        _eyev: Vector,
        normal: Vector,
        in_shadow: bool,
    ) -> Colour {
        echo(material, point, normal, in_shadow)
    }
}

#[test]
fn shade_hands_over_point_and_normal() {
    let ray = Ray::new(pt(0, 0, -5), vc(0, 0, 1));
    let shape = Sphere::new();
    let c = RawIntersect::new(4 * ONE as i128, &shape, &ray).precompute();
    assert_eq!(c.shade(&EchoLight, false), Colour::new(-ONE - EPSILON, -ONE, 200));
    assert_eq!(c.shade(&EchoLight, true), Colour::new(0, 0, 200));
}

#[test]
fn shade_hands_over_struck_material() {
    let ray = Ray::new(pt(0, 0, -5), vc(0, 0, 1));
    let mut shape = Sphere::new();
    shape.set_material(&Material::new(Colour::new(ONE, 0, 0), 0, ONE, 0, 7));
    let c = RawIntersect::new(4 * ONE as i128, &shape, &ray).precompute();
    assert_eq!(c.shade(&EchoLight, true), Colour::new(0, 0, 7));
}
