//! Intersection records, the ordered collection that holds them, and the
//! shading frame computed from the nearest visible one.
use vstd::prelude::*;
use vstd::multiset::Multiset;
use vstd::seq_lib::to_multiset_insert;

use crate::canvas::Colour;
use crate::geometry::{Point, Vector};
use crate::shape::{Lighting, Shape};
use crate::ray::{normal_raw, normalize_spec, Ray, Sphere};

verus! {

broadcast use vstd::seq_lib::group_to_multiset_ensures;

/// One intersection of a ray with a shape: the ray parameter `t` (in raw
/// units: `t == SCALE` is one direction length along the ray), the shape that
/// was struck and the ray that struck it.
#[derive(Clone, Copy, Debug)]
pub struct RawIntersect<'a> {
    pub t: i128,
    pub object: &'a Sphere,
    pub ray: &'a Ray,
}

impl<'a> RawIntersect<'a> {
    pub fn new(t: i128, object: &'a Sphere, ray: &'a Ray) -> (r: RawIntersect<'a>)
        ensures
            r.t == t,
            r.object == object,
            r.ray == ray,
    {
        RawIntersect { t, object, ray }
    }

    /// The shading frame at this record's point. Requires the point to lie
    /// within the coordinate bound, in the world and in the shape's space.
    pub fn precompute(&self) -> (r: ComputedIntersect<'a>)
        requires
            self.ray.bounded(),
            self.object.wf(),
            self.ray.position_in_bound(self.t as int),
            self.object.transform.inverse_point_spec(
                self.ray.position_spec(self.t as int),
            ).bounded(),
        ensures
            r == precompute_spec(*self),
    {
        let target = self.ray.position(self.t);
        let eyev = self.ray.direction.neg();
        let geometric = self.object.normal_at(target);
        let facing = geometric.dot(&eyev);
        let inside = facing < 0;
        let normal = if inside {
            geometric.neg()
        } else {
            geometric
        };
        let over_point = Point::new(
            target.x + nudge(normal.x),
            target.y + nudge(normal.y),
            target.z + nudge(normal.z),
        );
        ComputedIntersect {
            t: self.t,
            object: self.object,
            ray: self.ray,
            target,
            eyev,
            normal,
            inside,
            over_point,
        }
    }

    pub fn t(&self) -> (r: i128)
        ensures
            r == self.t,
    {
        self.t
    }
}

/// The distance by which the shading point is moved off the surface, in raw
/// units: 1e-6 of a world unit, the grid's resolution.
pub const EPSILON: i64 = 1;

/// The offset `normal * EPSILON` along one axis, for a coordinate of a unit
/// normal, rounded away from zero onto the grid.
pub open spec fn nudge_spec(n: i64) -> int {
    if n > 0 {
        EPSILON as int
    } else if n < 0 {
        -EPSILON
    } else {
        0
    }
}

fn nudge(n: i64) -> (r: i64)
    ensures
        r == nudge_spec(n),
{
    if n > 0 {
        EPSILON
    } else if n < 0 {
        -EPSILON
    } else {
        0
    }
}

impl<'a> ComputedIntersect<'a> {
    /// The colour that a light gives this point: the light is handed the
    /// struck object's material, the nudged point, the eye vector, the normal
    /// and whether the point is in shadow.
    pub fn shade<L: Lighting>(&self, light: &L, shadowed: bool) -> (r: Colour)
        ensures
            r == light.shade_spec(
                self.object.material,
                self.over_point,
                self.eyev,
                self.normal,
                shadowed,
            ),
    {
        light.shade_phong(*self.object.material(), self.over_point, self.eyev, self.normal, shadowed)
    }
}

/// The shading frame derived from one intersection record.
#[derive(Clone, Copy, Debug)]
pub struct ComputedIntersect<'a> {
    pub t: i128,
    pub object: &'a Sphere,
    pub ray: &'a Ray,
    /// Where the ray meets the surface.
    pub target: Point,
    /// The direction back toward the viewer.
    pub eyev: Vector,
    /// The unit normal on the side being viewed.
    pub normal: Vector,
    /// Whether the viewer is inside the surface.
    pub inside: bool,
    /// The target moved off the surface along the normal.
    pub over_point: Point,
}

/// The frame of a record: the point `t` along the ray, the reversed
/// direction, the sphere's normal there, flipped toward the eye where it
/// points away from it (the eye is then inside), and the point nudged along
/// that normal.
pub open spec fn precompute_spec<'a>(x: RawIntersect<'a>) -> ComputedIntersect<'a> {
    let target = x.ray.position_spec(x.t as int);
    let eyev = x.ray.direction.neg_spec();
    let geometric = normalize_spec(normal_raw(x.object.transform, target));
    let inside = geometric.dot_spec(eyev) < 0;
    let normal = if inside {
        geometric.neg_spec()
    } else {
        geometric
    };
    ComputedIntersect {
        t: x.t,
        object: x.object,
        ray: x.ray,
        target,
        eyev,
        normal,
        inside,
        over_point: Point {
            x: (target.x + nudge_spec(normal.x)) as i64,
            y: (target.y + nudge_spec(normal.y)) as i64,
            z: (target.z + nudge_spec(normal.z)) as i64,
        },
    }
}

/// The records are in non-decreasing order of `t`.
pub open spec fn sorted_by_t(s: Seq<RawIntersect>) -> bool {
    forall|i: int, j: int| 0 <= i < j < s.len() ==> s[i].t <= s[j].t
}

/// `r` is `s` with `x` placed after every record whose `t` is at most `x.t`
/// and before every record whose `t` is greater.
pub open spec fn is_insertion<'a>(s: Seq<RawIntersect<'a>>, x: RawIntersect<'a>, r: Seq<RawIntersect<'a>>) -> bool {
    exists|i: int|
        0 <= i <= s.len() && r == s.insert(i, x) && (forall|j: int| 0 <= j < i ==> s[j].t <= x.t)
            && (forall|j: int| i <= j < s.len() ==> s[j].t > x.t)
}

/// Where a record with parameter `t` goes in a sorted sequence: after every
/// record whose `t` is at most it.
pub open spec fn insert_pos(s: Seq<RawIntersect>, t: i128) -> int
    decreases s.len(),
{
    if s.len() == 0 {
        0
    } else if s.last().t > t {
        insert_pos(s.drop_last(), t)
    } else {
        s.len() as int
    }
}

/// `s` with `x` inserted in order.
pub open spec fn insert_spec<'a>(s: Seq<RawIntersect<'a>>, x: RawIntersect<'a>) -> Seq<RawIntersect<'a>> {
    s.insert(insert_pos(s, x.t), x)
}

/// `s` with the records of `o` inserted in order, one after another.
pub open spec fn merge_spec<'a>(s: Seq<RawIntersect<'a>>, o: Seq<RawIntersect<'a>>) -> Seq<RawIntersect<'a>>
    decreases o.len(),
{
    if o.len() == 0 {
        s
    } else {
        insert_spec(merge_spec(s, o.drop_last()), o.last())
    }
}

/// In a sorted sequence, the place after every record at most `t` and
/// before every record above it is `insert_pos`.
proof fn lemma_insert_pos<'a>(s: Seq<RawIntersect<'a>>, t: i128, i: int)
    requires
        0 <= i <= s.len(),
        forall|j: int| 0 <= j < i ==> s[j].t <= t,
        forall|j: int| i <= j < s.len() ==> s[j].t > t,
    ensures
        insert_pos(s, t) == i,
    decreases s.len(),
{
    if s.len() > 0 && i < s.len() {
        lemma_insert_pos(s.drop_last(), t, i);
    }
}

/// In a sorted sequence, `insert_pos` lies after every record at most `t`
/// and before every record above it.
proof fn lemma_insert_pos_splits<'a>(s: Seq<RawIntersect<'a>>, t: i128)
    requires
        sorted_by_t(s),
    ensures
        0 <= insert_pos(s, t) <= s.len(),
        forall|j: int| 0 <= j < insert_pos(s, t) ==> s[j].t <= t,
        forall|j: int| insert_pos(s, t) <= j < s.len() ==> s[j].t > t,
    decreases s.len(),
{
    if s.len() > 0 {
        let d = s.drop_last();
        lemma_insert_pos_splits(d, t);
        let p = insert_pos(s, t);
        if s.last().t <= t {
            assert forall|j: int| 0 <= j < p implies s[j].t <= t by {
                if j < s.len() - 1 {
                    assert(s[j].t <= s.last().t);
                }
            }
        } else {
            assert(p == insert_pos(d, t));
            assert forall|j: int| 0 <= j < p implies s[j].t <= t by {
                assert(s[j] == d[j]);
            }
            assert forall|j: int| p <= j < s.len() implies s[j].t > t by {
                if j < s.len() - 1 {
                    assert(s[j] == d[j]);
                }
            }
        }
    }
}

/// Inserting records one after another into a sorted sequence, in any
/// number and order, leaves it sorted and holding both sequences' records.
pub proof fn lemma_merge_keeps_order<'a>(s: Seq<RawIntersect<'a>>, o: Seq<RawIntersect<'a>>)
    requires
        sorted_by_t(s),
    ensures
        sorted_by_t(merge_spec(s, o)),
        merge_spec(s, o).to_multiset() == s.to_multiset().add(o.to_multiset()),
    decreases o.len(),
{
    if o.len() == 0 {
        assert(o.to_multiset() =~= Multiset::empty());
        assert(s.to_multiset().add(Multiset::empty()) =~= s.to_multiset());
    } else {
        let rest = o.drop_last();
        let x = o.last();
        lemma_merge_keeps_order(s, rest);
        let m = merge_spec(s, rest);
        lemma_insert_pos_splits(m, x.t);
        assert(is_insertion(m, x, insert_spec(m, x)));
        lemma_insertion_keeps_order(m, x, insert_spec(m, x));
        assert(o == rest.push(x));
        vstd::seq_lib::to_multiset_build(rest, x);
        assert(merge_spec(s, o).to_multiset() =~= s.to_multiset().add(o.to_multiset()));
    }
}

/// Ordered insertion keeps a sorted sequence sorted.
pub proof fn lemma_insertion_keeps_order<'a>(
    s: Seq<RawIntersect<'a>>,
    x: RawIntersect<'a>,
    r: Seq<RawIntersect<'a>>,
)
    requires
        sorted_by_t(s),
        is_insertion(s, x, r),
    ensures
        sorted_by_t(r),
        r.to_multiset() == s.to_multiset().insert(x),
{
    let i = choose|i: int|
        0 <= i <= s.len() && r == s.insert(i, x) && (forall|j: int| 0 <= j < i ==> s[j].t <= x.t)
            && (forall|j: int| i <= j < s.len() ==> s[j].t > x.t);
    to_multiset_insert(s, i, x);
    assert forall|a: int, b: int| 0 <= a < b < r.len() implies r[a].t <= r[b].t by {
        if b < i {
        } else if b == i {
        } else if a < i {
            assert(s[a].t <= x.t);
            assert(x.t < s[b - 1].t);
        } else if a == i {
            assert(s[b - 1].t > x.t);
        } else {
            assert(s[a - 1].t <= s[b - 1].t);
        }
    }
}

/// The records that an intersection query produced, kept in non-decreasing
/// order of `t`.
#[derive(Clone, Debug)]
pub struct Intersections<'a> {
    items: Vec<RawIntersect<'a>>,
}

impl<'a> View for Intersections<'a> {
    type V = Seq<RawIntersect<'a>>;

    closed spec fn view(&self) -> Seq<RawIntersect<'a>> {
        self.items@
    }
}

impl<'a> Default for Intersections<'a> {
    fn default() -> (r: Intersections<'a>)
        ensures
            r@ == Seq::<RawIntersect<'a>>::empty(),
            r.wf(),
    {
        Intersections { items: Vec::new() }
    }
}

impl<'a> Intersections<'a> {
    pub open spec fn wf(&self) -> bool {
        sorted_by_t(self@)
    }

    /// Sorts a non-empty vector of records.
    pub fn new(vec: Vec<RawIntersect<'a>>) -> (r: Intersections<'a>)
        requires
            vec.len() > 0,
        ensures
            r.wf(),
            r@ == merge_spec(Seq::empty(), vec@),
            r@.to_multiset() == vec@.to_multiset(),
    {
        let mut r = Intersections::default();
        let mut i: usize = 0;
        proof {
            assert(vec@.subrange(0, 0) =~= Seq::<RawIntersect<'a>>::empty());
            assert(r@ =~= Seq::<RawIntersect<'a>>::empty());
        }
        while i < vec.len()
            invariant
                i <= vec.len(),
                r.wf(),
                r@ == merge_spec(Seq::empty(), vec@.subrange(0, i as int)),
                r@.to_multiset() == vec@.subrange(0, i as int).to_multiset(),
            decreases vec.len() - i,
        {
            r.add_raw_intersect(vec[i]);
            proof {
                assert(vec@.subrange(0, i + 1) == vec@.subrange(0, i as int).push(vec@[i as int]));
                assert(vec@.subrange(0, i + 1).drop_last() =~= vec@.subrange(0, i as int));
                vstd::seq_lib::to_multiset_build(vec@.subrange(0, i as int), vec@[i as int]);
            }
            i = i + 1;
        }
        assert(vec@.subrange(0, vec.len() as int) == vec@);
        r
    }

    pub fn len(&self) -> (r: usize)
        ensures
            r == self@.len(),
    {
        self.items.len()
    }

    /// The record at position `i`.
    pub fn get(&self, i: usize) -> (r: &RawIntersect<'a>)
        requires
            i < self@.len(),
        ensures
            *r == self@[i as int],
    {
        &self.items[i]
    }

    /// Inserts one record after every record with a `t` at most its own.
    pub fn add_raw_intersect(&mut self, intersect: RawIntersect<'a>)
        requires
            old(self).wf(),
        ensures
            final(self).wf(),
            final(self)@ == insert_spec(old(self)@, intersect),
            is_insertion(old(self)@, intersect, final(self)@),
            final(self)@.to_multiset() == old(self)@.to_multiset().insert(intersect),
    {
        let mut i: usize = 0;
        while i < self.items.len() && self.items[i].t <= intersect.t
            invariant
                i <= self.items.len(),
                forall|j: int| 0 <= j < i ==> self.items@[j].t <= intersect.t,
            decreases self.items.len() - i,
        {
            i = i + 1;
        }
        let ghost s = self@;
        proof {
            assert forall|j: int| i <= j < s.len() implies s[j].t > intersect.t by {
                assert(s[i as int].t > intersect.t);
                assert(s[i as int].t <= s[j].t);
            }
        }
        self.items.insert(i, intersect);
        proof {
            lemma_insert_pos(s, intersect.t, i as int);
            assert(is_insertion(s, intersect, self@));
            lemma_insertion_keeps_order(s, intersect, self@);
        }
    }

    /// Inserts every record of `intersections`, in its order.
    pub fn combine_intersections(&mut self, intersections: Intersections<'a>)
        requires
            old(self).wf(),
        ensures
            final(self).wf(),
            final(self)@ == merge_spec(old(self)@, intersections@),
            final(self)@.to_multiset() == old(self)@.to_multiset().add(
                intersections@.to_multiset(),
            ),
    {
        let ghost start = self@;
        let mut i: usize = 0;
        proof {
            assert(intersections@.subrange(0, 0) =~= Seq::<RawIntersect<'a>>::empty());
            assert(start.to_multiset().add(Multiset::empty()) =~= start.to_multiset());
        }
        while i < intersections.items.len()
            invariant
                i <= intersections@.len(),
                self.wf(),
                self@ == merge_spec(start, intersections@.subrange(0, i as int)),
                self@.to_multiset() == start.to_multiset().add(
                    intersections@.subrange(0, i as int).to_multiset(),
                ),
            decreases intersections@.len() - i,
        {
            let x = intersections.items[i];
            self.add_raw_intersect(x);
            proof {
                let o = intersections@;
                assert(o.subrange(0, i + 1) == o.subrange(0, i as int).push(o[i as int]));
                assert(o.subrange(0, i + 1).drop_last() =~= o.subrange(0, i as int));
                vstd::seq_lib::to_multiset_build(o.subrange(0, i as int), o[i as int]);
                assert(self@.to_multiset() =~= start.to_multiset().add(
                    o.subrange(0, i + 1).to_multiset(),
                ));
            }
            i = i + 1;
        }
        assert(intersections@.subrange(0, intersections@.len() as int) == intersections@);
    }

    /// The first record, in order, whose `t` is not negative.
    pub fn hit(&self) -> (r: Option<&RawIntersect<'a>>)
        ensures
            r is None <==> (forall|j: int| 0 <= j < self@.len() ==> self@[j].t < 0),
            r is Some ==> exists|i: int|
                0 <= i < self@.len() && *r->0 == self@[i] && self@[i].t >= 0 && (forall|j: int|
                    0 <= j < i ==> self@[j].t < 0),
            r is Some && self.wf() ==> forall|j: int|
                0 <= j < self@.len() && self@[j].t >= 0 ==> r->0.t <= self@[j].t,
    {
        let mut i: usize = 0;
        while i < self.items.len()
            invariant
                i <= self@.len(),
                forall|j: int| 0 <= j < i ==> self@[j].t < 0,
            decreases self@.len() - i,
        {
            if self.items[i].t >= 0 {
                proof {
                    assert forall|j: int|
                        self.wf() && 0 <= j < self@.len() && self@[j].t >= 0 implies self@[i as int].t
                        <= self@[j].t by {
                        if j > i {
                        }
                    }
                }
                return Some(&self.items[i]);
            }
            i = i + 1;
        }
        None
    }
}

} // verus!
