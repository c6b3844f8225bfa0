//! Rays, spheres, and the intersection of the one with the other.
use vstd::prelude::*;

use crate::geometry::{
    ceil_div, ceil_sqrt_spec, div_ceil, div_floor, in_bound, is_isqrt, isqrt_ceil, isqrt_exact,
    isqrt_spec, lemma_div_bound, scale_down, lemma_floor_ceil, lemma_isqrt_exists, Point, Transform, TransformKind, Vector,
    COORD_BOUND, SCALE,
};
use crate::intersections::{Intersections, RawIntersect};
use crate::shape::{intersect_shape, Material};

verus! {

/// The unit sphere centred at the origin of its own space, placed in the
/// world by a transform, with the material its surface is made of.
#[derive(Clone, Copy, Debug, PartialEq, Eq, Structural)]
pub struct Sphere {
    pub transform: Transform,
    pub material: Material,
}

/// A ray: an origin and a direction in world space.
#[derive(Clone, Copy, Debug, PartialEq, Eq, Structural)]
pub struct Ray {
    pub origin: Point,
    pub direction: Vector,
}

impl Sphere {
    pub open spec fn wf(&self) -> bool {
        self.transform.wf()
    }

    /// The unit sphere at the origin, of the standard material.
    pub fn new() -> (r: Sphere)
        ensures
            r.transform == Transform::of_kind(TransformKind::Identity),
            r.material == Material::standard_spec(),
            r.wf(),
    {
        Sphere { transform: Transform::new(TransformKind::Identity), material: Material::standard() }
    }

    pub fn set_transform(&mut self, transform: &Transform)
        ensures
            final(self).transform == *transform,
            final(self).material == old(self).material,
    {
        self.transform = *transform;
    }

    pub fn set_material(&mut self, material: &Material)
        ensures
            final(self).material == *material,
            final(self).transform == old(self).transform,
    {
        self.material = *material;
    }

    pub fn get_material(&self) -> (r: &Material)
        ensures
            *r == self.material,
    {
        &self.material
    }

    pub fn get_transform(&self) -> (r: &Transform)
        ensures
            *r == self.transform,
    {
        &self.transform
    }
}

/// The point that a coordinate `o` reaches after `t` (raw units) along `d`.
pub open spec fn advance(o: i64, d: i64, t: int) -> int {
    o + (t * d) / (SCALE as int)
}

/// Largest magnitude of a ray parameter accepted by `position`.
pub const T_BOUND: i128 = 0x400_0000_0000_0000_0000_0000;

impl Ray {
    pub open spec fn bounded(self) -> bool {
        self.origin.bounded() && self.direction.bounded()
    }

    pub fn new(origin: Point, direction: Vector) -> (r: Ray)
        ensures
            r.origin == origin,
            r.direction == direction,
    {
        Ray { origin, direction }
    }

    /// Whether the point `t` along the ray lies within the coordinate bound.
    pub open spec fn position_in_bound(self, t: int) -> bool {
        -T_BOUND <= t <= T_BOUND && in_bound(advance(self.origin.x, self.direction.x, t))
            && in_bound(advance(self.origin.y, self.direction.y, t)) && in_bound(
            advance(self.origin.z, self.direction.z, t),
        )
    }

    pub open spec fn position_spec(self, t: int) -> Point {
        Point {
            x: advance(self.origin.x, self.direction.x, t) as i64,
            y: advance(self.origin.y, self.direction.y, t) as i64,
            z: advance(self.origin.z, self.direction.z, t) as i64,
        }
    }

    /// The point `t` along the ray: `origin + t * direction`.
    pub fn position(&self, t: i128) -> (r: Point)
        requires
            self.bounded(),
            self.position_in_bound(t as int),
        ensures
            r == self.position_spec(t as int),
            r.bounded(),
    {
        Point {
            x: advance_axis(self.origin.x, self.direction.x, t),
            y: advance_axis(self.origin.y, self.direction.y, t),
            z: advance_axis(self.origin.z, self.direction.z, t),
        }
    }

    pub open spec fn transform_spec(self, m: Transform) -> Ray {
        Ray { origin: m.point_spec(self.origin), direction: m.vector_spec(self.direction) }
    }

    pub open spec fn inverse_spec(self, m: Transform) -> Ray {
        Ray {
            origin: m.inverse_point_spec(self.origin),
            direction: m.inverse_vector_spec(self.direction),
        }
    }

    /// The ray carried by a transform.
    pub fn transform(&self, m: &Transform) -> (r: Ray)
        requires
            self.bounded(),
            m.wf(),
        ensures
            r == self.transform_spec(*m),
    {
        Ray { origin: m.apply_point(&self.origin), direction: m.apply_vector(&self.direction) }
    }

    /// The ray carried by the inverse of a transform.
    pub fn transform_inverse(&self, m: &Transform) -> (r: Ray)
        requires
            self.bounded(),
            m.wf(),
        ensures
            r == self.inverse_spec(*m),
    {
        Ray { origin: m.invert_point(&self.origin), direction: m.invert_vector(&self.direction) }
    }
}

fn advance_axis(o: i64, d: i64, t: i128) -> (r: i64)
    requires
        in_bound(d as int),
        -T_BOUND <= t <= T_BOUND,
        in_bound(advance(o, d, t as int)),
    ensures
        r == advance(o, d, t as int),
{
    proof {
        let b = 0x4000_0000int;
        let tb = T_BOUND as int;
        assert(-tb * b <= t * d <= tb * b) by (nonlinear_arith)
            requires -tb <= t <= tb, -b <= d <= b;
    }
    let q = div_floor(t * (d as i128), SCALE as i128);
    (o as i128 + q) as i64
}

/// The vector from the origin to a point.
pub open spec fn to_vector(p: Point) -> Vector {
    Vector { x: p.x, y: p.y, z: p.z }
}

/// A dot product of two bounded vectors is at most three times the square of
/// the bound.
pub proof fn lemma_dot_bound(u: Vector, v: Vector)
    requires
        u.bounded(),
        v.bounded(),
    ensures
        -3 * 0x1000_0000_0000_0000int <= u.dot_spec(v) <= 3 * 0x1000_0000_0000_0000int,
{
    let b = 0x4000_0000int;
    assert(-b * b <= u.x * v.x <= b * b) by (nonlinear_arith)
        requires -b <= u.x <= b, -b <= v.x <= b;
    assert(-b * b <= u.y * v.y <= b * b) by (nonlinear_arith)
        requires -b <= u.y <= b, -b <= v.y <= b;
    assert(-b * b <= u.z * v.z <= b * b) by (nonlinear_arith)
        requires -b <= u.z <= b, -b <= v.z <= b;
}

/// Coefficients of `a t^2 + b t + c = 0`, whose roots are where a ray in the
/// sphere's own space meets the unit sphere (in raw units).
pub open spec fn quad_a(l: Ray) -> int {
    l.direction.dot_spec(l.direction)
}

pub open spec fn quad_b(l: Ray) -> int {
    2 * l.direction.dot_spec(to_vector(l.origin))
}

pub open spec fn quad_c(l: Ray) -> int {
    to_vector(l.origin).dot_spec(to_vector(l.origin)) - SCALE * SCALE
}

pub open spec fn discriminant(l: Ray) -> int {
    quad_b(l) * quad_b(l) - 4 * quad_a(l) * quad_c(l)
}

/// The two ray parameters, lower first, at which a ray in the sphere's own
/// space meets the unit sphere; none where the ray has no direction or
/// misses. A tangent ray gets its one parameter twice, rounded toward negative
/// infinity. Otherwise the parameters are rounded outward: the lower one
/// toward negative infinity, the upper one toward positive infinity, with the
/// square root of the discriminant rounded up, so that neither moves toward
/// the other past its exact value.
pub open spec fn sphere_roots(l: Ray) -> Option<(int, int)> {
    if quad_a(l) == 0 || discriminant(l) < 0 {
        None
    } else if discriminant(l) == 0 {
        let t = (SCALE * (-quad_b(l))) / (2 * quad_a(l));
        Some((t, t))
    } else {
        let cs = ceil_sqrt_spec(discriminant(l));
        Some(
            (
                (SCALE * (-quad_b(l) - cs)) / (2 * quad_a(l)),
                ceil_div(SCALE * (-quad_b(l) + cs), 2 * quad_a(l)),
            ),
        )
    }
}

impl Sphere {
    /// Where a ray given in the sphere's own space meets it.
    pub fn local_intersect(&self, local_ray: &Ray) -> (r: Option<(i128, i128)>)
        requires
            local_ray.bounded(),
        ensures
            r is None <==> sphere_roots(*local_ray) is None,
            r matches Some((lo, hi)) ==> sphere_roots(*local_ray) == Some((lo as int, hi as int))
                && lo <= hi && -T_BOUND <= lo && hi <= T_BOUND,
    {
        let l = *local_ray;
        let to_ray = Vector::new(l.origin.x, l.origin.y, l.origin.z);
        let a = l.direction.dot(&l.direction);
        let d_o = l.direction.dot(&to_ray);
        let oo = to_ray.dot(&to_ray);
        let ghost bb = 0x1000_0000_0000_0000int;
        proof {
            lemma_dot_bound(l.direction, l.direction);
            lemma_dot_bound(l.direction, to_ray);
            lemma_dot_bound(to_ray, to_ray);
            assert(l.direction.dot_spec(l.direction) >= 0) by (nonlinear_arith)
                requires l.direction.dot_spec(l.direction) == l.direction.x * l.direction.x
                    + l.direction.y * l.direction.y + l.direction.z * l.direction.z;
            assert(-3 * bb <= d_o <= 3 * bb);
        }
        let b = 2 * d_o;
        proof {
            assert(to_ray.dot_spec(to_ray) >= 0) by (nonlinear_arith)
                requires to_ray.dot_spec(to_ray) == to_ray.x * to_ray.x + to_ray.y * to_ray.y
                    + to_ray.z * to_ray.z;
            assert(SCALE * SCALE == 1000000000000int) by (nonlinear_arith);
        }
        let c = oo - 1000000000000i128;
        let ghost big = 0x100_0000_0000_0000_0000_0000_0000_0000int;
        proof {
            assert(bb * bb == big) by (nonlinear_arith)
                requires bb == 0x1000_0000_0000_0000int, big == 0x100_0000_0000_0000_0000_0000_0000_0000int;
            assert(0 <= b * b <= 36 * big) by (nonlinear_arith)
                requires -6 * bb <= b <= 6 * bb, bb * bb == big, bb > 0;
            assert(-36 * big <= 4 * a * c <= 36 * big) by (nonlinear_arith)
                requires 0 <= a <= 3 * bb, -3 * bb <= c <= 3 * bb, bb * bb == big, bb > 0;
        }
        let disc = b * b - 4 * a * c;
        if a == 0 || disc < 0 {
            return None;
        }
        let two_a = 2 * a;
        let ghost tb = T_BOUND as int;
        let ghost k = SCALE as int;
        if disc == 0 {
            proof {
                assert(-k * (6 * bb) <= k * (-b) <= k * (6 * bb)) by (nonlinear_arith)
                    requires -6 * bb <= b <= 6 * bb, k > 0;
                assert(k * (6 * bb) <= tb);
            }
            let t = div_floor((SCALE as i128) * (-b), two_a);
            proof {
                lemma_div_bound(k * (-b), two_a as int, tb);
            }
            return Some((t, t));
        }
        let cs = isqrt_ceil(disc as u128);
        proof {
            let sq = isqrt_spec(disc as int);
            lemma_isqrt_exists(disc as int);
            let m = 9 * bb;
            assert(m * m == 81 * big) by (nonlinear_arith)
                requires m == 9 * bb, bb * bb == big;
            if sq > m {
                assert(sq * sq > m * m) by (nonlinear_arith)
                    requires sq > m, m > 0;
            }
            assert(cs <= m + 1);
        }
        let n1 = (SCALE as i128) * (-b - cs as i128);
        let n2 = (SCALE as i128) * (-b + cs as i128);
        proof {
            assert(-(15 * bb + 1) <= -b - cs && -b + cs <= 15 * bb + 1);
            assert(-k * (15 * bb + 1) <= k * (-b - cs) <= k * (-b + cs) <= k * (15 * bb + 1))
                by (nonlinear_arith)
                requires -(15 * bb + 1) <= -b - cs, -b - cs <= -b + cs, -b + cs <= 15 * bb + 1, k > 0;
            assert(k * (15 * bb + 1) <= tb);
        }
        let lo = div_floor(n1, two_a);
        let hi = div_ceil(n2, two_a);
        proof {
            lemma_div_bound(n1 as int, two_a as int, tb);
            lemma_div_bound(-n2, two_a as int, tb);
            lemma_floor_ceil(n1 as int, two_a as int);
            lemma_floor_ceil(n2 as int, two_a as int);
            assert(lo <= hi) by (nonlinear_arith)
                requires two_a * lo <= n1, n1 <= n2, n2 <= two_a * hi, two_a > 0;
        }
        Some((lo, hi))
    }
}

impl Ray {
    /// Where the ray meets a sphere: the two roots of the sphere's quadratic in
    /// the sphere's own space, lower first, each bound to the sphere and this
    /// ray; none where the ray misses.
    pub fn intersect<'a>(&'a self, s: &'a Sphere) -> (r: Option<Intersections<'a>>)
        requires
            self.bounded(),
            s.wf(),
            self.inverse_spec(s.transform).bounded(),
        ensures
            r is None <==> sphere_roots(self.inverse_spec(s.transform)) is None,
            r is Some ==> ({
                let (t1, t2) = sphere_roots(self.inverse_spec(s.transform))->0;
                &&& r->0.wf()
                &&& r->0@.len() == 2
                &&& r->0@[0] == RawIntersect { t: t1 as i128, object: s, ray: self }
                &&& r->0@[1] == RawIntersect { t: t2 as i128, object: s, ray: self }
                &&& -T_BOUND <= t1 <= t2 <= T_BOUND
            }),
    {
        match intersect_shape(s, self) {
            None => None,
            Some((t1, t2)) => {
                let mut xs = Intersections::default();
                let first = RawIntersect::new(t1, s, self);
                let second = RawIntersect::new(t2, s, self);
                xs.add_raw_intersect(first);
                let ghost one = xs@;
                assert(one == seq![first]);
                xs.add_raw_intersect(second);
                proof {
                    let i = choose|i: int|
                        0 <= i <= one.len() && xs@ == one.insert(i, second) && (forall|j: int|
                            0 <= j < i ==> one[j].t <= second.t) && (forall|j: int|
                            i <= j < one.len() ==> one[j].t > second.t);
                    if i == 0 {
                        assert(one[0].t > second.t);
                    }
                    assert(i == 1);
                }
                Some(xs)
            },
        }
    }
}

/// The sphere's outward normal at a world point, before normalising: the
/// point in the sphere's space, carried back by the inverse transpose of the
/// scaling, which divides each axis by its factor.
pub open spec fn normal_raw(m: Transform, p: Point) -> (int, int, int) {
    let l = m.inverse_point_spec(p);
    (scale_down(l.x as int, m.sx as int), scale_down(l.y as int, m.sy as int), scale_down(
        l.z as int,
        m.sz as int,
    ))
}

/// A vector scaled to length `SCALE` (one world unit), each coordinate
/// rounded toward negative infinity; the zero vector stays zero.
pub open spec fn normalize_spec(n: (int, int, int)) -> Vector {
    let len = isqrt_spec(n.0 * n.0 + n.1 * n.1 + n.2 * n.2);
    if len == 0 {
        Vector { x: 0, y: 0, z: 0 }
    } else {
        Vector {
            x: ((n.0 * SCALE) / len) as i64,
            y: ((n.1 * SCALE) / len) as i64,
            z: ((n.2 * SCALE) / len) as i64,
        }
    }
}

/// Every coordinate of `v` lies within one world unit.
pub open spec fn unit_bounded(v: Vector) -> bool {
    -SCALE <= v.x <= SCALE && -SCALE <= v.y <= SCALE && -SCALE <= v.z <= SCALE
}

/// `n * SCALE / len` lies within one world unit when `|n| <= len`.
proof fn lemma_unit_coordinate(n: int, len: int)
    requires
        len >= 1,
        -len <= n <= len,
    ensures
        -SCALE <= (n * SCALE) / len <= SCALE,
{
    let k = SCALE as int;
    assert(-len * k <= n * k <= len * k) by (nonlinear_arith)
        requires -len <= n <= len, k > 0;
    vstd::arithmetic::div_mod::lemma_div_is_ordered(n * k, len * k, len);
    vstd::arithmetic::div_mod::lemma_div_is_ordered(-len * k, n * k, len);
    vstd::arithmetic::div_mod::lemma_div_multiples_vanish(k, len);
    vstd::arithmetic::div_mod::lemma_div_multiples_vanish(-k, len);
    assert(len * k == k * len && -len * k == (-k) * len) by (nonlinear_arith);
}

/// A coordinate is at most the length of its vector.
proof fn lemma_coordinate_within_length(c: int, sum: int, len: int)
    requires
        c * c <= sum,
        is_isqrt(sum, len),
    ensures
        -len <= c <= len,
{
    if c > len {
        assert(c * c >= (len + 1) * (len + 1)) by (nonlinear_arith)
            requires c >= len + 1, len >= 0;
    }
    if c < -len {
        assert(c * c >= (len + 1) * (len + 1)) by (nonlinear_arith)
            requires -c >= len + 1, len >= 0;
    }
}

fn normalize_axis(n: i128, len: i128) -> (r: i64)
    requires
        len >= 1,
        -len <= n <= len,
        -0x10_0000_0000_0000 <= n <= 0x10_0000_0000_0000,
    ensures
        r == (n * SCALE) / (len as int),
        -SCALE <= r <= SCALE,
{
    proof {
        lemma_unit_coordinate(n as int, len as int);
        assert(-0x10_0000_0000_0000 * SCALE <= n * SCALE <= 0x10_0000_0000_0000 * SCALE)
            by (nonlinear_arith)
            requires -0x10_0000_0000_0000 <= n <= 0x10_0000_0000_0000;
    }
    div_floor(n * (SCALE as i128), len) as i64
}

impl Sphere {
    /// The outward unit normal at a world point. Requires the point, carried
    /// into the sphere's space, to lie within the coordinate bound.
    pub fn normal_at(&self, world_point: Point) -> (r: Vector)
        requires
            self.wf(),
            world_point.bounded(),
            self.transform.inverse_point_spec(world_point).bounded(),
        ensures
            r == normalize_spec(normal_raw(self.transform, world_point)),
            unit_bounded(r),
    {
        let m = self.transform;
        let l = m.invert_point(&world_point);
        let ghost nb = 0x10_0000_0000_0000int;
        let ghost cb = COORD_BOUND * SCALE;
        proof {
            assert(cb <= nb);
            assert forall|c: int| in_bound(c) implies -cb <= #[trigger] (c * SCALE) <= cb by {
                assert(-cb <= c * SCALE <= cb) by (nonlinear_arith)
                    requires -COORD_BOUND <= c <= COORD_BOUND, cb == COORD_BOUND * SCALE;
            }
            lemma_div_bound(l.x * SCALE, m.sx as int, cb);
            lemma_div_bound(l.y * SCALE, m.sy as int, cb);
            lemma_div_bound(l.z * SCALE, m.sz as int, cb);
        }
        let nx = div_floor((l.x as i128) * (SCALE as i128), m.sx as i128);
        let ny = div_floor((l.y as i128) * (SCALE as i128), m.sy as i128);
        let nz = div_floor((l.z as i128) * (SCALE as i128), m.sz as i128);
        proof {
            assert(nx * nx <= nb * nb && ny * ny <= nb * nb && nz * nz <= nb * nb) by (nonlinear_arith)
                requires -nb <= nx <= nb, -nb <= ny <= nb, -nb <= nz <= nb;
            assert(nb * nb == 0x100_0000_0000_0000_0000_0000_0000int) by (nonlinear_arith)
                requires nb == 0x10_0000_0000_0000int;
            assert(0 <= nx * nx && 0 <= ny * ny && 0 <= nz * nz) by (nonlinear_arith);
        }
        let sum = nx * nx + ny * ny + nz * nz;
        let sq = isqrt_exact(sum as u128);
        proof {
            let k = 0x1_0000_0000_0000_0000int;
            if sq > k {
                assert(sq * sq > k * k) by (nonlinear_arith)
                    requires sq > k, k > 0;
                assert(k * k == 0x1_0000_0000_0000_0000_0000_0000_0000_0000int) by (nonlinear_arith)
                    requires k == 0x1_0000_0000_0000_0000int;
            }
            assert(normal_raw(m, world_point) == (nx as int, ny as int, nz as int));
        }
        let len = sq as i128;
        if len == 0 {
            return Vector::new(0, 0, 0);
        }
        proof {
            assert(nx * nx <= sum && ny * ny <= sum && nz * nz <= sum);
            lemma_coordinate_within_length(nx as int, sum as int, len as int);
            lemma_coordinate_within_length(ny as int, sum as int, len as int);
            lemma_coordinate_within_length(nz as int, sum as int, len as int);
        }
        Vector::new(normalize_axis(nx, len), normalize_axis(ny, len), normalize_axis(nz, len))
    }
}

} // verus!
