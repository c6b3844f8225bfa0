//! Properties of ray-sphere intersection and of transforms.
use vstd::prelude::*;

use crate::geometry::{
    ceil_div, ceil_sqrt_spec, in_bound, lemma_ceil_sqrt, lemma_div_bound,
    lemma_floor_ceil, scale_down, scale_up, Transform, TransformKind, COORD_BOUND, SCALE,
    SCALE_FACTOR_MAX,
};
use crate::ray::{
    discriminant, quad_a, quad_b, quad_c, sphere_roots, to_vector, Ray, Sphere,
};

verus! {

/// The parameter of the point of closest approach to the sphere's centre is
/// exactly `closest_num(l) / closest_den(l)`.
pub open spec fn closest_num(l: Ray) -> int {
    SCALE * (-quad_b(l))
}

pub open spec fn closest_den(l: Ray) -> int {
    2 * quad_a(l)
}

/// The midpoint of `t1` and `t2` lies within one raw unit of the exact
/// parameter of closest approach.
pub open spec fn symmetric_about_closest(l: Ray, t1: int, t2: int) -> bool {
    -2 * closest_den(l) < closest_den(l) * (t1 + t2) - 2 * closest_num(l) < 2 * closest_den(l)
}

/// The squared perpendicular distance of the ray's line from the centre, less
/// the squared radius, both weighted by `|direction|^2`: positive exactly
/// when the line passes outside the sphere, zero when it touches it.
pub open spec fn offset_excess(l: Ray) -> int {
    let o = to_vector(l.origin);
    let d = l.direction;
    o.dot_spec(o) * d.dot_spec(d) - d.dot_spec(o) * d.dot_spec(o) - SCALE * SCALE * d.dot_spec(d)
}

proof fn lemma_discriminant_is_offset(l: Ray)
    ensures
        discriminant(l) == -4 * offset_excess(l),
{
    let o = to_vector(l.origin);
    let d = l.direction;
    let dd = d.dot_spec(d);
    let dop = d.dot_spec(o);
    let oo = o.dot_spec(o);
    assert((2 * dop) * (2 * dop) - 4 * dd * (oo - SCALE * SCALE) == -4 * (oo * dd - dop * dop
        - SCALE * SCALE * dd)) by (nonlinear_arith);
}

/// Dividing by the unit factor keeps a coordinate.
proof fn lemma_unit_factor(c: int)
    ensures
        scale_down(c, SCALE as int) == c,
{
    vstd::arithmetic::div_mod::lemma_div_multiples_vanish(c, SCALE as int);
    assert(c * SCALE == SCALE * c) by (nonlinear_arith);
}

/// Under the identity transform the sphere sees the ray itself.
proof fn lemma_identity_sees_ray(r: Ray)
    ensures
        r.inverse_spec(Transform::of_kind(TransformKind::Identity)) == r,
{
    lemma_unit_factor(r.origin.x as int);
    lemma_unit_factor(r.origin.y as int);
    lemma_unit_factor(r.origin.z as int);
    lemma_unit_factor(r.direction.x as int);
    lemma_unit_factor(r.direction.y as int);
    lemma_unit_factor(r.direction.z as int);
}

/// Where a ray meets a sphere, its two parameters are placed symmetrically,
/// up to one raw unit, about the point of closest approach; they are equal
/// for a tangent ray, and otherwise the lower is strictly below the upper.
pub proof fn lemma_roots_symmetric(l: Ray)
    requires
        sphere_roots(l) is Some,
    ensures
        sphere_roots(l) matches Some((t1, t2)) && symmetric_about_closest(l, t1, t2) && (
        discriminant(l) > 0 ==> t1 < t2) && (discriminant(l) == 0 ==> t1 == t2),
{
    let a = quad_a(l);
    let b = quad_b(l);
    let d = 2 * a;
    let x = SCALE * (-b);
    let k = SCALE as int;
    let dl = l.direction;
    assert(a >= 0) by (nonlinear_arith)
        requires a == dl.x * dl.x + dl.y * dl.y + dl.z * dl.z;
    let disc = discriminant(l);
    if disc == 0 {
        lemma_floor_ceil(x, d);
        let t = x / d;
        assert(d * (t + t) == 2 * (d * t)) by (nonlinear_arith);
    } else {
        let cs = ceil_sqrt_spec(disc);
        lemma_ceil_sqrt(disc);
        let n1 = k * (-b - cs);
        let n2 = k * (-b + cs);
        assert(n1 + n2 == 2 * x && n1 < n2) by (nonlinear_arith)
            requires n1 == k * (-b - cs), n2 == k * (-b + cs), x == k * (-b), cs >= 1, k > 0;
        lemma_floor_ceil(n1, d);
        lemma_floor_ceil(n2, d);
        let t1 = n1 / d;
        let t2 = ceil_div(n2, d);
        assert(t1 < t2) by (nonlinear_arith)
            requires d * t1 <= n1, n1 < n2, n2 <= d * t2, d > 0;
        assert(d * (t1 + t2) == d * t1 + d * t2) by (nonlinear_arith);
        assert(sphere_roots(l) == Some((t1, t2)));
    }
}

/// A sphere under the identity transform that a ray strikes is struck at
/// two parameters placed symmetrically, up to one raw unit, about the ray's
/// point of closest approach to its centre; the lower is strictly below the
/// upper unless the ray is tangent.
pub proof fn lemma_identity_sphere_symmetric(r: Ray, s: Sphere)
    requires
        s.transform == Transform::of_kind(TransformKind::Identity),
        sphere_roots(r) is Some,
    ensures
        sphere_roots(r.inverse_spec(s.transform)) == sphere_roots(r),
        sphere_roots(r) matches Some((t1, t2)) && symmetric_about_closest(r, t1, t2) && (
        discriminant(r) > 0 ==> t1 < t2),
{
    lemma_identity_sees_ray(r);
    lemma_roots_symmetric(r);
}

/// A ray whose perpendicular distance from the centre exceeds the radius
/// misses the sphere.
pub proof fn lemma_miss(l: Ray)
    requires
        offset_excess(l) > 0,
    ensures
        sphere_roots(l) is None,
{
    lemma_discriminant_is_offset(l);
}

/// A ray whose perpendicular distance from the centre equals the radius
/// touches the sphere: both parameters are equal.
pub proof fn lemma_tangent(l: Ray)
    requires
        offset_excess(l) == 0,
        quad_a(l) > 0,
    ensures
        sphere_roots(l) matches Some((t1, t2)) && t1 == t2,
{
    lemma_discriminant_is_offset(l);
}

/// A ray that starts inside the sphere meets it once behind its origin and
/// once ahead of it.
pub proof fn lemma_interior_origin(l: Ray)
    requires
        quad_c(l) < 0,
        quad_a(l) > 0,
    ensures
        sphere_roots(l) matches Some((t1, t2)) && t1 < 0 < t2,
{
    let a = quad_a(l);
    let b = quad_b(l);
    let c = quad_c(l);
    let disc = discriminant(l);
    let d = 2 * a;
    assert(disc > b * b && b * b >= 0) by (nonlinear_arith)
        requires disc == b * b - 4 * a * c, a > 0, c < 0;
    let cs = ceil_sqrt_spec(disc);
    lemma_ceil_sqrt(disc);
    if cs <= b {
        assert(cs * cs <= b * b) by (nonlinear_arith)
            requires 0 <= cs, cs <= b;
    }
    if cs <= -b {
        assert(cs * cs <= b * b) by (nonlinear_arith)
            requires 0 <= cs, cs <= -b;
    }
    let k = SCALE as int;
    let n1 = k * (-b - cs);
    let n2 = k * (-b + cs);
    assert(n1 < 0 && n2 > 0) by (nonlinear_arith)
        requires n1 == k * (-b - cs), n2 == k * (-b + cs), -b - cs < 0, -b + cs > 0, k > 0;
    lemma_floor_ceil(n1, d);
    lemma_floor_ceil(n2, d);
    let t1 = n1 / d;
    let t2 = ceil_div(n2, d);
    assert(t1 < 0) by (nonlinear_arith)
        requires d * t1 <= n1, n1 < 0, d > 0;
    assert(t2 > 0) by (nonlinear_arith)
        requires d * t2 >= n2, n2 > 0, d > 0;
}

/// `back` is `c` carried through a scaling by `s` and back: never above
/// `c`, and below it by less than `SCALE / s + 1` raw units (so exactly `c`
/// where `s` is a whole number of world units).
pub open spec fn round_trip_close(c: i64, back: i64, s: i64) -> bool {
    0 <= c - back && (c - back) * s < SCALE + s
}

proof fn lemma_axis_round_trip(c: int, s: int, t: int)
    requires
        in_bound(c),
        1 <= s <= SCALE_FACTOR_MAX,
        in_bound(t),
    ensures
        ({
            let y = scale_up(c, s) + t;
            let back = scale_down(y - t, s);
            &&& i64::MIN <= y <= i64::MAX
            &&& i64::MIN <= back <= i64::MAX
            &&& 0 <= c - back
            &&& (c - back) * s < SCALE + s
        }),
{
    let k = SCALE as int;
    let b = COORD_BOUND as int;
    let mb = b * SCALE_FACTOR_MAX;
    assert(-mb <= c * s <= mb) by (nonlinear_arith)
        requires -b <= c <= b, 1 <= s <= SCALE_FACTOR_MAX, mb == b * SCALE_FACTOR_MAX;
    lemma_div_bound(c * s, k, mb);
    let f = (c * s) / k;
    vstd::arithmetic::div_mod::lemma_fundamental_div_mod(c * s, k);
    let r1 = (c * s) % k;
    let y = f + t;
    assert(y - t == f);
    vstd::arithmetic::div_mod::lemma_fundamental_div_mod(f * k, s);
    let back = (f * k) / s;
    let r2 = (f * k) % s;
    assert(s * back <= c * s) by (nonlinear_arith)
        requires c * s == k * f + r1, 0 <= r1, f * k == s * back + r2, 0 <= r2;
    assert(c - back >= 0) by (nonlinear_arith)
        requires s * back <= c * s, s >= 1;
    assert((c - back) * s < k + s) by (nonlinear_arith)
        requires c * s == k * f + r1, r1 < k, f * k == s * back + r2, r2 < s;
    if c - back > k + 1 {
        assert((c - back) * s >= (k + 2) * s) by (nonlinear_arith)
            requires c - back >= k + 2, s >= 1;
        assert((k + 2) * s >= k + 2 * s) by (nonlinear_arith)
            requires s >= 1, k >= 0;
    }
}

/// Carrying a ray by a transform and then by its inverse gives the ray back,
/// up to the rounding of the scaling: each coordinate comes back within
/// `SCALE / s + 1` raw units, and exactly where the factor `s` is a whole
/// number of world units.
pub proof fn lemma_transform_round_trip(r: Ray, m: Transform)
    requires
        r.bounded(),
        m.wf(),
    ensures
        ({
            let back = r.transform_spec(m).inverse_spec(m);
            &&& round_trip_close(r.origin.x, back.origin.x, m.sx)
            &&& round_trip_close(r.origin.y, back.origin.y, m.sy)
            &&& round_trip_close(r.origin.z, back.origin.z, m.sz)
            &&& round_trip_close(r.direction.x, back.direction.x, m.sx)
            &&& round_trip_close(r.direction.y, back.direction.y, m.sy)
            &&& round_trip_close(r.direction.z, back.direction.z, m.sz)
        }),
{
    lemma_axis_round_trip(r.origin.x as int, m.sx as int, m.tx as int);
    lemma_axis_round_trip(r.origin.y as int, m.sy as int, m.ty as int);
    lemma_axis_round_trip(r.origin.z as int, m.sz as int, m.tz as int);
    lemma_axis_round_trip(r.direction.x as int, m.sx as int, 0);
    lemma_axis_round_trip(r.direction.y as int, m.sy as int, 0);
    lemma_axis_round_trip(r.direction.z as int, m.sz as int, 0);
}

/// A transform whose factors are whole numbers of world units carries a ray
/// and back exactly.
pub proof fn lemma_whole_factor_round_trip(c: int, s: int, t: int)
    requires
        in_bound(c),
        1 <= s <= SCALE_FACTOR_MAX,
        s % (SCALE as int) == 0,
        in_bound(t),
    ensures
        scale_down(scale_up(c, s) + t - t, s) == c,
{
    let k = SCALE as int;
    let w = s / k;
    vstd::arithmetic::div_mod::lemma_fundamental_div_mod(s, k);
    assert(c * s == k * (c * w)) by (nonlinear_arith)
        requires s == k * w + 0;
    vstd::arithmetic::div_mod::lemma_div_multiples_vanish(c * w, k);
    assert((c * w) * k == s * c) by (nonlinear_arith)
        requires s == k * w;
    vstd::arithmetic::div_mod::lemma_div_multiples_vanish(c, s);
}

} // verus!
