//! Intersection records, the hittable-object capability, and the aggregate
//! scene list that resolves the nearest hit among its members.

use vstd::prelude::*;
use crate::num::{MAX_COORD, SCALE};
use crate::ray::Ray;
use crate::shapes::{sphere_hit, Sphere};
use crate::vec3::{dot3, in_bounds, neg3, Vec3, VAL_MAX};

verus! {

/// Bound on the components of an oriented surface normal: the outward
/// normal of a sphere divides a coordinate difference of at most
/// `3 * MAX_COORD` (a hit point within the doubled coordinate range minus
/// a center within it) by a radius of at least one fixed-point unit.
pub const NORM_MAX: i64 = 3 * MAX_COORD * SCALE;

/// Description of one ray-surface intersection: the point reached, the
/// oriented unit normal there, the ray parameter, and whether the ray met
/// the surface from outside.
pub struct HitRecord {
    pub p: Vec3,
    pub normal: Vec3,
    pub t: i64,
    pub front_face: bool,
}

impl HitRecord {
    /// Every record the pipeline produces keeps its point within twice the
    /// coordinate range (a hit of an admitted scene can reach that far) and
    /// its normal within `NORM_MAX`.
    pub open spec fn wf(&self) -> bool {
        &&& in_bounds(self.p, 2 * MAX_COORD as int)
        &&& in_bounds(self.normal, NORM_MAX as int)
    }

    /// A fresh record; the orientation flag starts out false.
    pub fn new(p: Vec3, normal: Vec3, t: i64) -> (rec: HitRecord)
        ensures
            rec == (HitRecord { p, normal, t, front_face: false }),
    {
        HitRecord { p, normal, t, front_face: false }
    }

    pub fn clone(&self) -> (rec: HitRecord)
        ensures
            rec == *self,
    {
        HitRecord { p: self.p, normal: self.normal, t: self.t, front_face: self.front_face }
    }

    /// Orients `outward` against the incoming ray: if the ray's direction
    /// and the outward normal point the same way the ray starts inside the
    /// surface, so the stored normal is flipped and the front-face flag
    /// cleared; otherwise the normal is kept and the flag set.
    pub fn set_face_normal(&mut self, r: &Ray, outward: Vec3)
        requires
            in_bounds(outward, VAL_MAX as int),
            in_bounds(r.direction, VAL_MAX as int),
        ensures
            final(self).p == old(self).p,
            final(self).t == old(self).t,
            dot3(outward, r.direction) > 0 ==> final(self).front_face == false
                && final(self).normal == neg3(outward),
            dot3(outward, r.direction) <= 0 ==> final(self).front_face == true
                && final(self).normal == outward,
    {
        let dp: i128 = outward.dot_scaled(&r.direction);
        if dp > 0 {
            self.front_face = false;
            self.normal = outward.negated();
        } else {
            self.front_face = true;
            self.normal = outward;
        }
    }
}

/// The capability of reporting whether and where a ray intersects.
pub trait Hittable {
    /// The structural invariant the object maintains.
    spec fn wf(&self) -> bool;

    /// The exact outcome of intersecting `r` with this object over the
    /// closed parameter interval `[t_min, t_max]`.
    spec fn spec_hit(&self, r: Ray, t_min: i64, t_max: i64) -> Option<HitRecord>;

    /// Reports the intersection of `r` with this object within
    /// `[t_min, t_max]`, if any; the returned parameter lies in the
    /// interval and the record is well formed.
    fn hit(&self, r: &Ray, t_min: i64, t_max: i64) -> (res: Option<HitRecord>)
        requires
            self.wf(),
            r.wf(),
        ensures
            res == self.spec_hit(*r, t_min, t_max),
            res matches Some(rec) ==> t_min <= rec.t <= t_max && rec.wf(),
    ;
}

/// A scene object: the tagged union of the primitives the library offers.
pub enum Object {
    Sphere(Sphere),
}

/// The structural invariant of one scene object.
pub open spec fn object_wf(o: Object) -> bool {
    match o {
        Object::Sphere(s) => s.wf(),
    }
}

/// The outcome of intersecting `r` with one scene object over
/// `[t_min, t_max]`.
pub open spec fn object_hit(o: Object, r: Ray, t_min: i64, t_max: i64) -> Option<HitRecord> {
    match o {
        Object::Sphere(s) => sphere_hit(s, r, t_min, t_max),
    }
}

impl Hittable for Object {
    open spec fn wf(&self) -> bool {
        object_wf(*self)
    }

    open spec fn spec_hit(&self, r: Ray, t_min: i64, t_max: i64) -> Option<HitRecord> {
        object_hit(*self, r, t_min, t_max)
    }

    fn hit(&self, r: &Ray, t_min: i64, t_max: i64) -> (res: Option<HitRecord>) {
        match self {
            Object::Sphere(s) => s.hit(r, t_min, t_max),
        }
    }
}

/// The nearest-hit fold over a sequence of objects: each member is probed
/// with the upper end of the interval shrunk to the best parameter found
/// among the members before it, so the last accepted record is the nearest.
pub open spec fn list_hit(objs: Seq<Object>, r: Ray, t_min: i64, t_max: i64) -> Option<
    HitRecord,
>
    decreases objs.len(),
{
    if objs.len() == 0 {
        None
    } else {
        let prev = list_hit(objs.drop_last(), r, t_min, t_max);
        let bound = match prev {
            Some(rec) => rec.t,
            None => t_max,
        };
        match object_hit(objs.last(), r, t_min, bound) {
            Some(rec) => Some(rec),
            None => prev,
        }
    }
}

/// The interval-shrink law lifted to scene objects: the hit over
/// `[t_min, hi1]` is the hit over `[t_min, hi2]` when that hit's parameter
/// still lies within `hi1`, and nothing otherwise.
pub proof fn lemma_object_hit_shrink(o: Object, r: Ray, t_min: i64, hi1: i64, hi2: i64)
    requires
        hi1 <= hi2,
    ensures
        object_hit(o, r, t_min, hi1) == match object_hit(o, r, t_min, hi2) {
            Some(rec) => if rec.t <= hi1 {
                Some(rec)
            } else {
                None
            },
            None => None::<HitRecord>,
        },
{
    match o {
        Object::Sphere(s) => crate::shapes::lemma_sphere_hit_shrink(s, r, t_min, hi1, hi2),
    }
}

/// An object's hit parameter always lies in the interval it was asked for.
pub proof fn lemma_object_hit_range(o: Object, r: Ray, t_min: i64, t_max: i64)
    ensures
        object_hit(o, r, t_min, t_max) matches Some(rec) ==> t_min <= rec.t <= t_max,
{
}

/// Nearest-hit resolution: what the scene-wide fold returns is the hit
/// with the globally minimum parameter among all members' hits over the
/// full interval, and it returns nothing only when no member hits at all.
pub proof fn lemma_list_hit_nearest(objs: Seq<Object>, r: Ray, t_min: i64, t_max: i64)
    ensures
        list_hit(objs, r, t_min, t_max) matches Some(rec) ==> {
            &&& t_min <= rec.t <= t_max
            &&& exists|i: int|
                0 <= i < objs.len() && #[trigger] object_hit(objs[i], r, t_min, t_max)
                    == Some(rec)
            &&& forall|i: int|
                0 <= i < objs.len() ==> ((#[trigger] object_hit(objs[i], r, t_min, t_max))
                    matches Some(other) ==> rec.t <= other.t)
        },
        list_hit(objs, r, t_min, t_max) is None ==> forall|i: int|
            0 <= i < objs.len() ==> #[trigger] object_hit(objs[i], r, t_min, t_max) is None,
    decreases objs.len(),
{
    if objs.len() > 0 {
        let pre = objs.drop_last();
        lemma_list_hit_nearest(pre, r, t_min, t_max);
        let prev = list_hit(pre, r, t_min, t_max);
        let bound = match prev {
            Some(rec) => rec.t,
            None => t_max,
        };
        let last = objs.last();
        lemma_object_hit_shrink(last, r, t_min, bound, t_max);
        lemma_object_hit_range(last, r, t_min, bound);
        let cur = object_hit(last, r, t_min, bound);
        assert(forall|i: int| 0 <= i < pre.len() ==> pre[i] == #[trigger] objs[i]);
        assert(objs[objs.len() - 1] == last);
        match cur {
            Some(rec) => {
                assert(object_hit(objs[objs.len() - 1], r, t_min, t_max) == Some(rec));
                assert(list_hit(objs, r, t_min, t_max) == Some(rec));
            },
            None => {
                match prev {
                    Some(rec) => {
                        assert(list_hit(objs, r, t_min, t_max) == Some(rec));
                        assert(match object_hit(objs[objs.len() - 1], r, t_min, t_max) {
                            Some(other) => rec.t <= other.t,
                            None => true,
                        });
                        let w = choose|i: int|
                            0 <= i < pre.len() && #[trigger] object_hit(pre[i], r, t_min, t_max)
                                == Some(rec);
                        assert(object_hit(objs[w], r, t_min, t_max) == Some(rec));
                    },
                    None => {
                        assert(object_hit(objs[objs.len() - 1], r, t_min, t_max) is None);
                    },
                }
            },
        }
    }
}

/// Resolving a hit is a pure function of its inputs: two resolutions of
/// the same ray against the same scene over the same interval are equal,
/// however often they are repeated.
pub proof fn lemma_hit_deterministic(
    objs: Seq<Object>,
    r: Ray,
    t_min: i64,
    t_max: i64,
    res1: Option<HitRecord>,
    res2: Option<HitRecord>,
)
    requires
        res1 == list_hit(objs, r, t_min, t_max),
        res2 == list_hit(objs, r, t_min, t_max),
    ensures
        res1 == res2,
{
}

/// An aggregate of scene objects, itself hittable: it reports the nearest
/// intersection among its members.
pub struct HittableList {
    pub objects: Vec<Object>,
}

impl HittableList {
    /// An empty scene.
    pub fn new() -> (l: HittableList)
        ensures
            l.objects@ == Seq::<Object>::empty(),
            l.wf(),
    {
        HittableList { objects: Vec::new() }
    }

    /// Appends one object to the scene.
    pub fn add(&mut self, object: Object)
        requires
            object_wf(object),
            old(self).wf(),
        ensures
            final(self).objects@ == old(self).objects@.push(object),
            final(self).wf(),
    {
        self.objects.push(object);
    }
}

impl Hittable for HittableList {
    open spec fn wf(&self) -> bool {
        forall|i: int| 0 <= i < self.objects@.len() ==> object_wf(#[trigger] self.objects@[i])
    }

    open spec fn spec_hit(&self, r: Ray, t_min: i64, t_max: i64) -> Option<HitRecord> {
        list_hit(self.objects@, r, t_min, t_max)
    }

    fn hit(&self, r: &Ray, t_min: i64, t_max: i64) -> (res: Option<HitRecord>) {
        let mut best: Option<HitRecord> = None;
        let mut closest: i64 = t_max;
        let n: usize = self.objects.len();
        let mut i: usize = 0;
        proof {
            assert(self.objects@.take(0) =~= Seq::<Object>::empty());
        }
        while i < n
            invariant
                0 <= i <= n,
                n == self.objects@.len(),
                self.wf(),
                r.wf(),
                best == list_hit(self.objects@.take(i as int), *r, t_min, t_max),
                closest == match best {
                    Some(rec) => rec.t,
                    None => t_max,
                },
                best matches Some(rec) ==> t_min <= rec.t <= t_max && rec.wf(),
            decreases n - i,
        {
            let obj = &self.objects[i];
            let cur = obj.hit(r, t_min, closest);
            proof {
                assert(self.objects@.take(i as int + 1).drop_last() =~= self.objects@.take(
                    i as int,
                ));
                assert(self.objects@.take(i as int + 1).last() == self.objects@[i as int]);
            }
            match cur {
                Some(rec) => {
                    closest = rec.t;
                    best = Some(rec);
                },
                None => {},
            }
            i = i + 1;
        }
        proof {
            assert(self.objects@.take(n as int) =~= self.objects@);
        }
        best
    }
}

} // verus!
