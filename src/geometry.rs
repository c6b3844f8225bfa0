//! Fixed-point geometry: points, vectors, integer square root and the
//! affine transforms (per-axis integer scaling followed by a translation)
//! that place a shape in world space.
//!
//! Every scalar is an integer count of millionths of a world unit.
use vstd::prelude::*;

verus! {

/// Raw units per world unit.
pub const SCALE: i64 = 1000000;

/// Largest magnitude of a coordinate that the intersection arithmetic accepts
/// (2^30 raw units, a little over a thousand world units).
pub const COORD_BOUND: i64 = 1073741824;

/// Largest scale factor of a transform, in raw units (1024 world units).
pub const SCALE_FACTOR_MAX: i64 = 1024000000;

/// A point in space; translations move it.
#[derive(Clone, Copy, Debug, PartialEq, Eq, Structural)]
pub struct Point {
    pub x: i64,
    pub y: i64,
    pub z: i64,
}

/// A displacement in space; translations leave it unchanged.
#[derive(Clone, Copy, Debug, PartialEq, Eq, Structural)]
pub struct Vector {
    pub x: i64,
    pub y: i64,
    pub z: i64,
}

pub open spec fn in_bound(v: int) -> bool {
    -COORD_BOUND <= v <= COORD_BOUND
}

impl Point {
    pub fn new(x: i64, y: i64, z: i64) -> (r: Point)
        ensures
            r.x == x && r.y == y && r.z == z,
    {
        Point { x, y, z }
    }

    pub open spec fn bounded(self) -> bool {
        in_bound(self.x as int) && in_bound(self.y as int) && in_bound(self.z as int)
    }
}

impl Vector {
    pub fn new(x: i64, y: i64, z: i64) -> (r: Vector)
        ensures
            r.x == x && r.y == y && r.z == z,
    {
        Vector { x, y, z }
    }

    pub open spec fn bounded(self) -> bool {
        in_bound(self.x as int) && in_bound(self.y as int) && in_bound(self.z as int)
    }

    /// Dot product, in raw units squared.
    pub open spec fn dot_spec(self, o: Vector) -> int {
        self.x * o.x + self.y * o.y + self.z * o.z
    }

    pub fn dot(&self, o: &Vector) -> (r: i128)
        requires
            self.bounded(),
            o.bounded(),
        ensures
            r == self.dot_spec(*o),
    {
        let ghost b = COORD_BOUND as int;
        proof {
            assert(-b * b <= self.x * o.x <= b * b) by (nonlinear_arith)
                requires -b <= self.x <= b, -b <= o.x <= b;
            assert(-b * b <= self.y * o.y <= b * b) by (nonlinear_arith)
                requires -b <= self.y <= b, -b <= o.y <= b;
            assert(-b * b <= self.z * o.z <= b * b) by (nonlinear_arith)
                requires -b <= self.z <= b, -b <= o.z <= b;
        }
        (self.x as i128) * (o.x as i128) + (self.y as i128) * (o.y as i128) + (self.z as i128)
            * (o.z as i128)
    }

    pub open spec fn neg_spec(self) -> Vector {
        Vector { x: (-self.x) as i64, y: (-self.y) as i64, z: (-self.z) as i64 }
    }

    pub fn neg(&self) -> (r: Vector)
        requires
            self.bounded(),
        ensures
            r == self.neg_spec(),
            r.bounded(),
    {
        Vector { x: -self.x, y: -self.y, z: -self.z }
    }
}

/// Floor division by a positive divisor.
pub fn div_floor(x: i128, d: i128) -> (r: i128)
    requires
        d > 0,
    ensures
        r == x as int / d as int,
{
    if x >= 0 {
        x / d
    } else {
        let m = (-(x + 1)) / d;
        proof {
            let xi = x as int;
            let di = d as int;
            let q = (-(xi + 1)) / di;
            let rem = (-(xi + 1)) % di;
            assert(-(xi + 1) == q * di + rem && 0 <= rem < di) by (nonlinear_arith)
                requires di > 0, q == (-(xi + 1)) / di, rem == (-(xi + 1)) % di;
            assert(xi == (-q - 1) * di + (di - 1 - rem)) by (nonlinear_arith)
                requires -(xi + 1) == q * di + rem;
            vstd::arithmetic::div_mod::lemma_fundamental_div_mod_converse(
                xi,
                di,
                -q - 1,
                di - 1 - rem,
            );
        }
        -m - 1
    }
}

/// Dividing by a positive integer keeps a value within a symmetric bound.
pub proof fn lemma_div_bound(n: int, d: int, b: int)
    requires
        d >= 1,
        -b <= n <= b,
    ensures
        -b <= n / d <= b,
{
    vstd::arithmetic::div_mod::lemma_fundamental_div_mod(n, d);
    let q = n / d;
    let r = n % d;
    assert(-b <= q <= b) by (nonlinear_arith)
        requires n == d * q + r, 0 <= r < d, d >= 1, -b <= n <= b;
}

/// The integer square root: the largest `r` with `r * r <= n`.
pub open spec fn is_isqrt(n: int, r: int) -> bool {
    0 <= r && r * r <= n < (r + 1) * (r + 1)
}

/// Integer square root, by bisection.
pub fn isqrt(n: u128) -> (r: u128)
    requires
        n < 0x8000_0000_0000_0000_0000_0000_0000_0000u128,
    ensures
        is_isqrt(n as int, r as int),
{
    let mut lo: u128 = 0;
    let mut hi: u128 = 0x1_0000_0000_0000_0000u128;
    proof {
        assert(hi * hi == 0x1_0000_0000_0000_0000_0000_0000_0000_0000int) by (nonlinear_arith)
            requires hi == 0x1_0000_0000_0000_0000int;
    }
    while hi - lo > 1
        invariant
            lo < hi <= 0x1_0000_0000_0000_0000u128,
            lo * lo <= n,
            n < hi * hi,
        decreases hi - lo,
    {
        let mid = lo + (hi - lo) / 2;
        assert(lo < mid < hi);
        proof {
            assert(mid * mid < 0x1_0000_0000_0000_0000_0000_0000_0000_0000int) by (nonlinear_arith)
                requires mid < 0x1_0000_0000_0000_0000int, mid >= 0;
        }
        if mid * mid <= n {
            lo = mid;
        } else {
            hi = mid;
        }
    }
    assert(hi == lo + 1);
    lo
}

/// The kinds of transform a shape can be given.
#[derive(Clone, Copy, Debug, PartialEq, Eq, Structural)]
pub enum TransformKind {
    Identity,
    /// A translation by a vector, in raw units.
    Translate(i64, i64, i64),
    /// A scaling of each axis by a positive factor, in raw units (`SCALE`
    /// keeps the axis as it is).
    Scale(i64, i64, i64),
}

impl TransformKind {
    pub open spec fn valid(self) -> bool {
        match self {
            TransformKind::Identity => true,
            TransformKind::Translate(x, y, z) => in_bound(x as int) && in_bound(y as int)
                && in_bound(z as int),
            TransformKind::Scale(x, y, z) => 1 <= x <= SCALE_FACTOR_MAX && 1 <= y
                <= SCALE_FACTOR_MAX && 1 <= z <= SCALE_FACTOR_MAX,
        }
    }
}

/// An invertible affine transform: each axis is scaled by a positive
/// fixed-point factor, then the result is translated. Scaled coordinates are
/// rounded toward negative infinity.
#[derive(Clone, Copy, Debug, PartialEq, Eq, Structural)]
pub struct Transform {
    pub sx: i64,
    pub sy: i64,
    pub sz: i64,
    pub tx: i64,
    pub ty: i64,
    pub tz: i64,
}

pub open spec fn factor_ok(s: i64) -> bool {
    1 <= s <= SCALE_FACTOR_MAX
}

impl Transform {
    pub open spec fn wf(self) -> bool {
        factor_ok(self.sx) && factor_ok(self.sy) && factor_ok(self.sz) && in_bound(self.tx as int)
            && in_bound(self.ty as int) && in_bound(self.tz as int)
    }

    pub open spec fn of_kind(k: TransformKind) -> Transform {
        match k {
            TransformKind::Identity => Transform { sx: SCALE, sy: SCALE, sz: SCALE, tx: 0, ty: 0, tz: 0 },
            TransformKind::Translate(x, y, z) => Transform {
                sx: SCALE,
                sy: SCALE,
                sz: SCALE,
                tx: x,
                ty: y,
                tz: z,
            },
            TransformKind::Scale(x, y, z) => Transform { sx: x, sy: y, sz: z, tx: 0, ty: 0, tz: 0 },
        }
    }

    pub fn new(kind: TransformKind) -> (r: Transform)
        requires
            kind.valid(),
        ensures
            r == Transform::of_kind(kind),
            r.wf(),
    {
        match kind {
            TransformKind::Identity => Transform { sx: SCALE, sy: SCALE, sz: SCALE, tx: 0, ty: 0, tz: 0 },
            TransformKind::Translate(x, y, z) => Transform {
                sx: SCALE,
                sy: SCALE,
                sz: SCALE,
                tx: x,
                ty: y,
                tz: z,
            },
            TransformKind::Scale(x, y, z) => Transform { sx: x, sy: y, sz: z, tx: 0, ty: 0, tz: 0 },
        }
    }

    /// The transform applied to a point.
    pub open spec fn point_spec(self, p: Point) -> Point {
        Point {
            x: (scale_up(p.x as int, self.sx as int) + self.tx) as i64,
            y: (scale_up(p.y as int, self.sy as int) + self.ty) as i64,
            z: (scale_up(p.z as int, self.sz as int) + self.tz) as i64,
        }
    }

    /// The transform applied to a vector.
    pub open spec fn vector_spec(self, v: Vector) -> Vector {
        Vector {
            x: scale_up(v.x as int, self.sx as int) as i64,
            y: scale_up(v.y as int, self.sy as int) as i64,
            z: scale_up(v.z as int, self.sz as int) as i64,
        }
    }

    /// The inverse transform applied to a point.
    pub open spec fn inverse_point_spec(self, p: Point) -> Point {
        Point {
            x: scale_down(p.x - self.tx, self.sx as int) as i64,
            y: scale_down(p.y - self.ty, self.sy as int) as i64,
            z: scale_down(p.z - self.tz, self.sz as int) as i64,
        }
    }

    /// The inverse transform applied to a vector.
    pub open spec fn inverse_vector_spec(self, v: Vector) -> Vector {
        Vector {
            x: scale_down(v.x as int, self.sx as int) as i64,
            y: scale_down(v.y as int, self.sy as int) as i64,
            z: scale_down(v.z as int, self.sz as int) as i64,
        }
    }

    pub fn apply_point(&self, p: &Point) -> (r: Point)
        requires
            self.wf(),
            p.bounded(),
        ensures
            r == self.point_spec(*p),
    {
        Point {
            x: apply_axis(p.x, self.sx, self.tx),
            y: apply_axis(p.y, self.sy, self.ty),
            z: apply_axis(p.z, self.sz, self.tz),
        }
    }

    pub fn apply_vector(&self, v: &Vector) -> (r: Vector)
        requires
            self.wf(),
            v.bounded(),
        ensures
            r == self.vector_spec(*v),
    {
        Vector {
            x: apply_axis(v.x, self.sx, 0),
            y: apply_axis(v.y, self.sy, 0),
            z: apply_axis(v.z, self.sz, 0),
        }
    }

    pub fn invert_point(&self, p: &Point) -> (r: Point)
        requires
            self.wf(),
            p.bounded(),
        ensures
            r == self.inverse_point_spec(*p),
    {
        Point {
            x: invert_axis(p.x, self.sx, self.tx),
            y: invert_axis(p.y, self.sy, self.ty),
            z: invert_axis(p.z, self.sz, self.tz),
        }
    }

    pub fn invert_vector(&self, v: &Vector) -> (r: Vector)
        requires
            self.wf(),
            v.bounded(),
        ensures
            r == self.inverse_vector_spec(*v),
    {
        Vector {
            x: invert_axis(v.x, self.sx, 0),
            y: invert_axis(v.y, self.sy, 0),
            z: invert_axis(v.z, self.sz, 0),
        }
    }
}

/// A coordinate multiplied by a fixed-point factor.
pub open spec fn scale_up(c: int, s: int) -> int {
    (c * s) / (SCALE as int)
}

/// A coordinate divided by a fixed-point factor.
pub open spec fn scale_down(c: int, s: int) -> int {
    (c * SCALE) / s
}

fn apply_axis(c: i64, s: i64, t: i64) -> (r: i64)
    requires
        in_bound(c as int),
        factor_ok(s),
        in_bound(t as int),
    ensures
        r == scale_up(c as int, s as int) + t,
{
    let ghost b = COORD_BOUND as int;
    let ghost m = b * SCALE_FACTOR_MAX;
    proof {
        assert(-m <= c * s <= m) by (nonlinear_arith)
            requires -b <= c <= b, 1 <= s <= SCALE_FACTOR_MAX, m == b * SCALE_FACTOR_MAX;
        lemma_div_bound(c * s, SCALE as int, m);
        assert(m / (SCALE as int) == 1099511627776int) by (nonlinear_arith)
            requires m == 0x4000_0000int * 1024000000;
        vstd::arithmetic::div_mod::lemma_div_is_ordered(c * s, m, SCALE as int);
        vstd::arithmetic::div_mod::lemma_div_is_ordered(-m, c * s, SCALE as int);
        assert((-m) / (SCALE as int) == -1099511627776int) by (nonlinear_arith)
            requires m == 0x4000_0000int * 1024000000;
    }
    let q = div_floor((c as i128) * (s as i128), SCALE as i128);
    (q + t as i128) as i64
}

fn invert_axis(c: i64, s: i64, t: i64) -> (r: i64)
    requires
        in_bound(c as int),
        factor_ok(s),
        in_bound(t as int),
    ensures
        r == scale_down(c - t, s as int),
{
    let ghost n = c as int - t;
    let ghost b = 2 * COORD_BOUND * SCALE;
    proof {
        assert(-b <= n * SCALE <= b) by (nonlinear_arith)
            requires -2 * COORD_BOUND <= n <= 2 * COORD_BOUND, b == 2 * COORD_BOUND * SCALE;
        lemma_div_bound(n * SCALE, s as int, b);
    }
    let q = div_floor((c as i128 - t as i128) * (SCALE as i128), s as i128);
    q as i64
}

/// The integer square root of a non-negative `n`.
pub open spec fn isqrt_spec(n: int) -> int {
    choose|r: int| is_isqrt(n, r)
}

/// The integer square root is unique.
pub proof fn lemma_isqrt_unique(n: int, r1: int, r2: int)
    requires
        is_isqrt(n, r1),
        is_isqrt(n, r2),
    ensures
        r1 == r2,
{
    if r1 < r2 {
        assert((r1 + 1) * (r1 + 1) <= r2 * r2) by (nonlinear_arith)
            requires 0 <= r1, r1 + 1 <= r2;
    } else if r2 < r1 {
        assert((r2 + 1) * (r2 + 1) <= r1 * r1) by (nonlinear_arith)
            requires 0 <= r2, r2 + 1 <= r1;
    }
}

pub fn isqrt_exact(n: u128) -> (r: u128)
    requires
        n < 0x8000_0000_0000_0000_0000_0000_0000_0000u128,
    ensures
        r == isqrt_spec(n as int),
        is_isqrt(n as int, r as int),
{
    let r = isqrt(n);
    proof {
        let c = isqrt_spec(n as int);
        assert(is_isqrt(n as int, c));
        lemma_isqrt_unique(n as int, r as int, c);
    }
    r
}

/// Every non-negative integer has an integer square root.
pub proof fn lemma_isqrt_exists(n: int)
    requires
        n >= 0,
    ensures
        is_isqrt(n, isqrt_spec(n)),
    decreases n,
{
    if n == 0 {
        assert(is_isqrt(0, 0));
    } else {
        lemma_isqrt_exists(n - 1);
        let r = isqrt_spec(n - 1);
        if (r + 1) * (r + 1) <= n {
            assert(n < (r + 2) * (r + 2)) by (nonlinear_arith)
                requires n - 1 < (r + 1) * (r + 1), r >= 0;
            assert(is_isqrt(n, r + 1));
        } else {
            assert(is_isqrt(n, r));
        }
    }
}

/// Division by a positive divisor, rounded toward positive infinity.
pub open spec fn ceil_div(n: int, d: int) -> int {
    -((-n) / d)
}

/// Ceiling division by a positive divisor.
pub fn div_ceil(x: i128, d: i128) -> (r: i128)
    requires
        d > 0,
        x > i128::MIN,
    ensures
        r == ceil_div(x as int, d as int),
{
    let q = div_floor(-x, d);
    proof {
        let b = if x >= 0 { x as int } else { -x };
        lemma_div_bound(-x, d as int, b);
    }
    -q
}

/// Floor and ceiling division bracket the exact quotient:
/// `d * (n / d) <= n <= d * ceil_div(n, d)`, each within `d` of `n`.
pub proof fn lemma_floor_ceil(n: int, d: int)
    requires
        d > 0,
    ensures
        d * (n / d) <= n < d * (n / d) + d,
        d * ceil_div(n, d) - d < n <= d * ceil_div(n, d),
{
    vstd::arithmetic::div_mod::lemma_fundamental_div_mod(n, d);
    vstd::arithmetic::div_mod::lemma_fundamental_div_mod(-n, d);
    let q = (-n) / d;
    assert(d * (-q) == -(d * q)) by (nonlinear_arith);
}

/// The least `r >= 0` with `n <= r * r`.
pub open spec fn ceil_sqrt_spec(n: int) -> int {
    if isqrt_spec(n) * isqrt_spec(n) == n {
        isqrt_spec(n)
    } else {
        isqrt_spec(n) + 1
    }
}

/// The rounded-up square root of a non-negative `n` has a square at least
/// `n`, and is positive when `n` is.
pub proof fn lemma_ceil_sqrt(n: int)
    requires
        n >= 0,
    ensures
        ceil_sqrt_spec(n) >= 0,
        n <= ceil_sqrt_spec(n) * ceil_sqrt_spec(n),
        n > 0 ==> ceil_sqrt_spec(n) >= 1,
{
    lemma_isqrt_exists(n);
    let f = isqrt_spec(n);
    if f * f != n {
        assert(n <= (f + 1) * (f + 1));
    }
    if n > 0 && f == 0 {
        assert(f * f == 0);
    }
}

/// The integer square root, rounded up.
pub fn isqrt_ceil(n: u128) -> (r: u128)
    requires
        n < 0x8000_0000_0000_0000_0000_0000_0000_0000u128,
    ensures
        r == ceil_sqrt_spec(n as int),
        r as int <= isqrt_spec(n as int) + 1,
        n <= r * r,
        n > 0 ==> r >= 1,
{
    let f = isqrt_exact(n);
    proof {
        assert(f * f <= 0x8000_0000_0000_0000_0000_0000_0000_0000int);
        assert(f <= 0x1_0000_0000_0000_0000) by (nonlinear_arith)
            requires f * f <= 0x8000_0000_0000_0000_0000_0000_0000_0000int, f >= 0;
    }
    if f * f == n {
        f
    } else {
        f + 1
    }
}

} // verus!
