//! The capabilities of a surface that rays can strike.
use vstd::prelude::*;

use crate::canvas::Colour;
use crate::geometry::{Point, Transform, Vector, SCALE};
use crate::ray::{sphere_roots, unit_bounded, Ray, Sphere, T_BOUND};

verus! {

/// What a surface is made of, as the lighting model reads it: its colour
/// and the weights of the ambient, diffuse and specular terms (fixed point,
/// `SCALE` is one), and the specular exponent.
#[derive(Clone, Copy, Debug, PartialEq, Eq, Structural)]
pub struct Material {
    pub colour: Colour,
    pub ambient: i64,
    pub diffuse: i64,
    pub specular: i64,
    pub shininess: i64,
}

impl Material {
    pub fn new(colour: Colour, ambient: i64, diffuse: i64, specular: i64, shininess: i64) -> (r:
        Material)
        ensures
            r == (Material { colour, ambient, diffuse, specular, shininess }),
    {
        Material { colour, ambient, diffuse, specular, shininess }
    }

    /// White, ambient 0.1, diffuse 0.9, specular 0.9, shininess 200.
    pub open spec fn standard_spec() -> Material {
        Material {
            colour: Colour { red: SCALE, green: SCALE, blue: SCALE },
            ambient: 100000,
            diffuse: 900000,
            specular: 900000,
            shininess: 200,
        }
    }

    pub fn standard() -> (r: Material)
        ensures
            r == Material::standard_spec(),
    {
        Material {
            colour: Colour::new(SCALE, SCALE, SCALE),
            ambient: 100000,
            diffuse: 900000,
            specular: 900000,
            shininess: 200,
        }
    }
}

/// A surface that can say where a ray given in its own space meets it.
pub trait LocallyIntersectable {
    /// The ray parameters, lower first, where a ray in the surface's own
    /// space meets it.
    spec fn local_roots(&self, local_ray: Ray) -> Option<(int, int)>;

    fn local_intersect(&self, local_ray: &Ray) -> (r: Option<(i128, i128)>)
        requires
            local_ray.bounded(),
        ensures
            r is None <==> self.local_roots(*local_ray) is None,
            r matches Some((lo, hi)) ==> self.local_roots(*local_ray) == Some(
                (lo as int, hi as int),
            ) && -T_BOUND <= lo <= hi <= T_BOUND,
    ;
}

/// A surface placed in the world by a transform.
pub trait Shape: LocallyIntersectable {
    spec fn shape_wf(&self) -> bool;

    /// The outward unit normal at a world point.
    fn normal_at(&self, world_point: Point) -> (r: Vector)
        requires
            self.shape_wf(),
            world_point.bounded(),
            self.placement().inverse_point_spec(world_point).bounded(),
        ensures
            unit_bounded(r),
    ;

    /// The transform that places the surface in the world.
    spec fn placement(&self) -> Transform;

    /// The material of the surface.
    spec fn surface_material(&self) -> Material;

    fn material(&self) -> (r: &Material)
        ensures
            *r == self.surface_material(),
    ;

    fn transformation_matrix(&self) -> (r: &Transform)
        requires
            self.shape_wf(),
        ensures
            *r == self.placement(),
            r.wf(),
    ;
}

/// Where a world-space ray meets a shape: the ray is carried into the
/// shape's own space by the inverse of its transform, and the shape says
/// where it meets it there.
pub fn intersect_shape<S: Shape>(shape: &S, world_ray: &Ray) -> (r: Option<(i128, i128)>)
    requires
        shape.shape_wf(),
        world_ray.bounded(),
        world_ray.inverse_spec(shape.placement()).bounded(),
    ensures
        r is None <==> shape.local_roots(world_ray.inverse_spec(shape.placement())) is None,
        r matches Some((lo, hi)) ==> shape.local_roots(world_ray.inverse_spec(shape.placement()))
            == Some((lo as int, hi as int)) && -T_BOUND <= lo <= hi <= T_BOUND,
{
    let local_ray = world_ray.transform_inverse(shape.transformation_matrix());
    shape.local_intersect(&local_ray)
}

impl LocallyIntersectable for Sphere {
    open spec fn local_roots(&self, local_ray: Ray) -> Option<(int, int)> {
        sphere_roots(local_ray)
    }

    fn local_intersect(&self, local_ray: &Ray) -> (r: Option<(i128, i128)>) {
        Sphere::local_intersect(self, local_ray)
    }
}

impl Shape for Sphere {
    open spec fn shape_wf(&self) -> bool {
        self.wf()
    }

    fn normal_at(&self, world_point: Point) -> (r: Vector) {
        Sphere::normal_at(self, world_point)
    }

    open spec fn placement(&self) -> Transform {
        self.transform
    }

    fn transformation_matrix(&self) -> (r: &Transform) {
        &self.transform
    }

    open spec fn surface_material(&self) -> Material {
        self.material
    }

    fn material(&self) -> (r: &Material) {
        &self.material
    }
}

/// A light source: turns the material and geometry of a shaded point into a
/// colour.
pub trait Lighting {
    /// The colour that the light gives a point of a material, seen along
    /// `eyev` with surface normal `normal`, in shadow or not.
    spec fn shade_spec(
        &self,
        material: Material,
        point: Point,
        eyev: Vector,
        normal: Vector,
        in_shadow: bool,
    ) -> Colour;

    fn shade_phong(
        &self,
        material: Material,
        point: Point,
        eyev: Vector,
        normal: Vector,
        in_shadow: bool,
    ) -> (r: Colour)
        ensures
            r == self.shade_spec(material, point, eyev, normal, in_shadow),
    ;
}

} // verus!
