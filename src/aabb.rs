use vstd::prelude::*;
use crate::ray::{lemma_le_lt_trans, lemma_lt_le_trans, Param, Ray};
use crate::vec3::Vec3;

verus! {

/// An axis-aligned bounding box given by two corners.
#[derive(Clone, Copy, PartialEq, Eq, Structural, Debug)]
pub struct Aabb {
    pub min: Vec3,
    pub max: Vec3,
}

pub open spec fn min_int(a: int, b: int) -> int {
    if a <= b { a } else { b }
}

pub open spec fn max_int(a: int, b: int) -> int {
    if a >= b { a } else { b }
}

impl Aabb {
    /// Both corners are scene coordinates.
    pub open spec fn in_scene(self) -> bool {
        self.min.in_scene() && self.max.in_scene()
    }

    /// The corners are ordered: `min <= max` on every axis.
    pub open spec fn is_ordered(self) -> bool {
        self.min.x <= self.max.x && self.min.y <= self.max.y && self.min.z <= self.max.z
    }

    /// Well formed: scene coordinates and ordered corners.
    pub open spec fn wf(self) -> bool {
        self.in_scene() && self.is_ordered()
    }

    /// `self` encloses `inner` on every axis.
    pub open spec fn contains(self, inner: Aabb) -> bool {
        forall|a: int|
            0 <= a < 3 ==> (#[trigger] self.min.coord(a)) <= inner.min.coord(a) && inner.max.coord(a)
                <= self.max.coord(a)
    }

    /// The box spanned by the componentwise minimum of the `min` corners and
    /// the componentwise maximum of the `max` corners.
    pub open spec fn spec_surrounding(a: Aabb, b: Aabb) -> Aabb {
        Aabb {
            min: Vec3 {
                x: min_int(a.min.x as int, b.min.x as int) as i64,
                y: min_int(a.min.y as int, b.min.y as int) as i64,
                z: min_int(a.min.z as int, b.min.z as int) as i64,
            },
            max: Vec3 {
                x: max_int(a.max.x as int, b.max.x as int) as i64,
                y: max_int(a.max.y as int, b.max.y as int) as i64,
                z: max_int(a.max.z as int, b.max.z as int) as i64,
            },
        }
    }

    pub fn new(min: Vec3, max: Vec3) -> (r: Aabb)
        ensures
            r.min == min,
            r.max == max,
    {
        Aabb { min, max }
    }

    /// The smallest box enclosing both boxes.
    pub fn surrounding_box(box1: Aabb, box2: Aabb) -> (r: Aabb)
        ensures
            r == Aabb::spec_surrounding(box1, box2),
            box1.in_scene() && box2.in_scene() ==> r.in_scene(),
            box1.is_ordered() && box2.is_ordered() ==> r.is_ordered(),
    {
        Aabb {
            min: Vec3::new(
                if box1.min.x <= box2.min.x { box1.min.x } else { box2.min.x },
                if box1.min.y <= box2.min.y { box1.min.y } else { box2.min.y },
                if box1.min.z <= box2.min.z { box1.min.z } else { box2.min.z },
            ),
            max: Vec3::new(
                if box1.max.x >= box2.max.x { box1.max.x } else { box2.max.x },
                if box1.max.y >= box2.max.y { box1.max.y } else { box2.max.y },
                if box1.max.z >= box2.max.z { box1.max.z } else { box2.max.z },
            ),
        }
    }
}

impl Aabb {
    /// Where the ray crosses the plane through `min` on `axis`, for a ray
    /// that is not parallel to it.
    pub open spec fn cross_min(self, r: Ray, axis: int) -> Param {
        if r.dir.coord(axis) > 0 {
            Param { num: (self.min.coord(axis) - r.ori.coord(axis)) as i64, den: r.dir.coord(axis) as i64 }
        } else {
            Param { num: (r.ori.coord(axis) - self.min.coord(axis)) as i64, den: -r.dir.coord(axis) as i64 }
        }
    }

    /// Where the ray crosses the plane through `max` on `axis`.
    pub open spec fn cross_max(self, r: Ray, axis: int) -> Param {
        if r.dir.coord(axis) > 0 {
            Param { num: (self.max.coord(axis) - r.ori.coord(axis)) as i64, den: r.dir.coord(axis) as i64 }
        } else {
            Param { num: (r.ori.coord(axis) - self.max.coord(axis)) as i64, den: -r.dir.coord(axis) as i64 }
        }
    }

    /// The parameter at which the ray enters the slab of `axis`: the earlier
    /// of the two crossings, whichever corner it belongs to.
    pub open spec fn entry(self, r: Ray, axis: int) -> Param {
        if self.cross_min(r, axis).le(self.cross_max(r, axis)) {
            self.cross_min(r, axis)
        } else {
            self.cross_max(r, axis)
        }
    }

    /// The parameter at which the ray leaves the slab of `axis`.
    pub open spec fn exit(self, r: Ray, axis: int) -> Param {
        if self.cross_min(r, axis).le(self.cross_max(r, axis)) {
            self.cross_max(r, axis)
        } else {
            self.cross_min(r, axis)
        }
    }

    /// A ray parallel to `axis` runs within the slab (between the two
    /// corners, in either order); a ray not parallel to it meets no demand here.
    pub open spec fn parallel_inside(self, r: Ray, axis: int) -> bool {
        r.dir.coord(axis) == 0 ==> (self.min.coord(axis) <= r.ori.coord(axis) <= self.max.coord(axis)
            || self.max.coord(axis) <= r.ori.coord(axis) <= self.min.coord(axis))
    }

    /// The ray meets the box for some parameter strictly between `t_min` and
    /// `t_max`: every lower bound on the parameter (`t_min` and each slab
    /// entry) lies below every upper bound (`t_max` and each slab exit), and
    /// the ray runs inside every slab that it is parallel to.
    pub open spec fn spec_hit(self, r: Ray, t_min: Param, t_max: Param) -> bool {
        &&& forall|a: int| 0 <= a < 3 ==> #[trigger] self.parallel_inside(r, a)
        &&& t_min.lt(t_max)
        &&& forall|a: int|
            0 <= a < 3 && r.dir.coord(a) != 0 ==> t_min.lt(#[trigger] self.exit(r, a))
        &&& forall|a: int|
            0 <= a < 3 && r.dir.coord(a) != 0 ==> (#[trigger] self.entry(r, a)).lt(t_max)
        &&& forall|a: int, b: int|
            0 <= a < 3 && 0 <= b < 3 && r.dir.coord(a) != 0 && r.dir.coord(b) != 0 ==> (#[trigger] self.entry(
                r,
                a,
            )).lt(#[trigger] self.exit(r, b))
    }

    /// The box with the corners exchanged on `axis`.
    pub open spec fn swapped(self, axis: int) -> Aabb {
        if axis == 0 {
            Aabb {
                min: Vec3 { x: self.max.x, ..self.min },
                max: Vec3 { x: self.min.x, ..self.max },
            }
        } else if axis == 1 {
            Aabb {
                min: Vec3 { y: self.max.y, ..self.min },
                max: Vec3 { y: self.min.y, ..self.max },
            }
        } else {
            Aabb {
                min: Vec3 { z: self.max.z, ..self.min },
                max: Vec3 { z: self.min.z, ..self.max },
            }
        }
    }

    /// Entry and exit of the ray across the slab of `axis`.
    fn slab(&self, ray: &Ray, axis: usize) -> (r: (Param, Param))
        requires
            self.in_scene(),
            ray.in_scene(),
            axis < 3,
            ray.dir.coord(axis as int) != 0,
        ensures
            r.0 == self.entry(*ray, axis as int),
            r.1 == self.exit(*ray, axis as int),
            r.0.wf(),
            r.1.wf(),
    {
        let d = ray.dir.get(axis);
        let o = ray.ori.get(axis);
        let lo = self.min.get(axis);
        let hi = self.max.get(axis);
        let (p, q) = if d > 0 {
            (Param::new(lo - o, d), Param::new(hi - o, d))
        } else {
            (Param::new(o - lo, -d), Param::new(o - hi, -d))
        };
        proof {
            crate::ray::lemma_cross_bound(p.num as int, q.den as int);
            crate::ray::lemma_cross_bound(q.num as int, p.den as int);
        }
        if p.num * q.den <= q.num * p.den {
            (p, q)
        } else {
            (q, p)
        }
    }

    /// The parameter at which the ray enters the box, seen from `t_min`:
    /// the largest of `t_min` and the slab entries of the first `k` axes.
    pub open spec fn enter_upto(self, r: Ray, t_min: Param, k: int) -> Param
        decreases k,
    {
        if k <= 0 {
            t_min
        } else {
            let t = self.enter_upto(r, t_min, k - 1);
            if r.dir.coord(k - 1) != 0 && t.lt(self.entry(r, k - 1)) {
                self.entry(r, k - 1)
            } else {
                t
            }
        }
    }

    /// The parameter at which the ray enters the box: the largest of `t_min`
    /// and every slab entry.
    pub open spec fn enter_param(self, r: Ray, t_min: Param) -> Param {
        self.enter_upto(r, t_min, 3)
    }

    /// Slab test: whether the ray meets the box strictly between `t_min` and
    /// `t_max`.
    pub fn hit(&self, ray: &Ray, t_min: Param, t_max: Param) -> (r: bool)
        requires
            self.in_scene(),
            ray.in_scene(),
            t_min.wf(),
            t_max.wf(),
        ensures
            r == self.spec_hit(*ray, t_min, t_max),
    {
        self.hit_param(ray, t_min, t_max).is_some()
    }

    /// Slab test that also reports where the ray enters the box.  The
    /// interval is narrowed axis by axis to the part where the ray lies
    /// inside each slab, whichever way the ray runs along the axis.
    pub fn hit_param(&self, ray: &Ray, t_min: Param, t_max: Param) -> (r: Option<Param>)
        requires
            self.in_scene(),
            ray.in_scene(),
            t_min.wf(),
            t_max.wf(),
        ensures
            r.is_some() == self.spec_hit(*ray, t_min, t_max),
            r.is_some() ==> r.unwrap() == self.enter_param(*ray, t_min) && r.unwrap().wf(),
    {
        if !t_min.less_than(&t_max) {
            return None;
        }
        let mut lo = t_min;
        let mut hi = t_max;
        let ghost mut lo_axis: int = -1;
        let ghost mut hi_axis: int = -1;
        let mut axis: usize = 0;
        while axis < 3
            invariant
                self.in_scene(),
                ray.in_scene(),
                t_min.wf(),
                t_max.wf(),
                t_min.lt(t_max),
                axis <= 3,
                lo.wf(),
                hi.wf(),
                lo.lt(hi),
                lo == self.enter_upto(*ray, t_min, axis as int),
                -1 <= lo_axis < axis,
                -1 <= hi_axis < axis,
                lo_axis == -1 ==> lo == t_min,
                lo_axis >= 0 ==> ray.dir.coord(lo_axis) != 0 && lo == self.entry(*ray, lo_axis),
                hi_axis == -1 ==> hi == t_max,
                hi_axis >= 0 ==> ray.dir.coord(hi_axis) != 0 && hi == self.exit(*ray, hi_axis),
                t_min.le(lo),
                hi.le(t_max),
                forall|a: int| 0 <= a < axis ==> #[trigger] self.parallel_inside(*ray, a),
                forall|a: int|
                    0 <= a < axis && ray.dir.coord(a) != 0 ==> (#[trigger] self.entry(*ray, a)).le(lo),
                forall|a: int|
                    0 <= a < axis && ray.dir.coord(a) != 0 ==> hi.le(#[trigger] self.exit(*ray, a)),
            decreases 3 - axis,
        {
            let d = ray.dir.get(axis);
            if d == 0 {
                let o = ray.ori.get(axis);
                let a = self.min.get(axis);
                let b = self.max.get(axis);
                if !((a <= o && o <= b) || (b <= o && o <= a)) {
                    assert(!self.parallel_inside(*ray, axis as int));
                    return None;
                }
            } else {
                let (entry, exit) = self.slab(ray, axis);
                let ghost lo_old = lo;
                let ghost hi_old = hi;
                if lo.less_than(&entry) {
                    lo = entry;
                    proof {
                        lo_axis = axis as int;
                    }
                }
                if exit.less_than(&hi) {
                    hi = exit;
                    proof {
                        hi_axis = axis as int;
                    }
                }
                proof {
                    assert(entry.le(lo));
                    assert(hi.le(exit));
                    assert(lo_old.le(lo));
                    assert(hi.le(hi_old));
                    lemma_le_trans(t_min, lo_old, lo);
                    lemma_le_trans(hi, hi_old, t_max);
                    assert forall|a: int|
                        0 <= a <= axis && ray.dir.coord(a) != 0 implies (#[trigger] self.entry(
                            *ray,
                            a,
                        )).le(lo) by {
                        if a < axis {
                            lemma_le_trans(self.entry(*ray, a), lo_old, lo);
                        }
                    }
                    assert forall|a: int|
                        0 <= a <= axis && ray.dir.coord(a) != 0 implies hi.le(
                            #[trigger] self.exit(*ray, a),
                        ) by {
                        if a < axis {
                            lemma_le_trans(hi, hi_old, self.exit(*ray, a));
                        }
                    }
                }
                if !lo.less_than(&hi) {
                    proof {
                        if lo_axis == -1 && hi_axis == -1 {
                        } else if lo_axis == -1 {
                            assert(!t_min.lt(self.exit(*ray, hi_axis)));
                        } else if hi_axis == -1 {
                            assert(!self.entry(*ray, lo_axis).lt(t_max));
                        } else {
                            assert(!self.entry(*ray, lo_axis).lt(self.exit(*ray, hi_axis)));
                        }
                    }
                    return None;
                }
            }
            axis = axis + 1;
        }
        proof {
            assert forall|a: int|
                0 <= a < 3 && ray.dir.coord(a) != 0 implies t_min.lt(#[trigger] self.exit(*ray, a)) by {
                lemma_le_lt_trans(t_min, lo, hi);
                lemma_lt_le_trans(t_min, hi, self.exit(*ray, a));
            }
            assert forall|a: int|
                0 <= a < 3 && ray.dir.coord(a) != 0 implies (#[trigger] self.entry(*ray, a)).lt(t_max) by {
                lemma_le_lt_trans(self.entry(*ray, a), lo, hi);
                lemma_lt_le_trans(self.entry(*ray, a), hi, t_max);
            }
            assert forall|a: int, b: int|
                0 <= a < 3 && 0 <= b < 3 && ray.dir.coord(a) != 0 && ray.dir.coord(b) != 0 implies (
                #[trigger] self.entry(*ray, a)).lt(#[trigger] self.exit(*ray, b)) by {
                lemma_le_lt_trans(self.entry(*ray, a), lo, hi);
                lemma_lt_le_trans(self.entry(*ray, a), hi, self.exit(*ray, b));
            }
        }
        Some(lo)
    }
}

/// `<=` is transitive on parameters with positive denominators.
pub proof fn lemma_le_trans(a: Param, b: Param, c: Param)
    requires
        a.den > 0,
        b.den > 0,
        c.den > 0,
        a.le(b),
        b.le(c),
    ensures
        a.le(c),
{
    let (an, ad, bn, bd, cn, cd) = (a.num as int, a.den as int, b.num as int, b.den as int, c.num as int, c.den as int);
    assert(an * cd <= cn * ad) by (nonlinear_arith)
        requires
            ad > 0,
            bd > 0,
            cd > 0,
            an * bd <= bn * ad,
            bn * cd <= cn * bd,
    ;
}

/// The surrounding box encloses both of its arguments, and every box that
/// encloses both of them encloses it: it is exactly their union's hull.
pub proof fn lemma_surrounding_box_exact(a: Aabb, b: Aabb, c: Aabb)
    ensures
        Aabb::spec_surrounding(a, b).contains(a),
        Aabb::spec_surrounding(a, b).contains(b),
        c.contains(a) && c.contains(b) ==> c.contains(Aabb::spec_surrounding(a, b)),
{
    let s = Aabb::spec_surrounding(a, b);
    assert forall|i: int| 0 <= i < 3 implies #[trigger] s.min.coord(i) <= a.min.coord(i)
        && a.max.coord(i) <= s.max.coord(i) && s.min.coord(i) <= b.min.coord(i) && b.max.coord(i)
        <= s.max.coord(i) by {}
    if c.contains(a) && c.contains(b) {
        assert forall|i: int| 0 <= i < 3 implies #[trigger] c.min.coord(i) <= s.min.coord(i)
            && s.max.coord(i) <= c.max.coord(i) by {
            assert(c.min.coord(i) <= a.min.coord(i) && a.max.coord(i) <= c.max.coord(i));
            assert(c.min.coord(i) <= b.min.coord(i) && b.max.coord(i) <= c.max.coord(i));
        }
    }
}

} // verus!

verus! {

/// Exchanging the corners on `axis` leaves each slab's entry and exit as they were.
proof fn lemma_swap_slab(b: Aabb, r: Ray, axis: int, a: int)
    requires
        0 <= axis < 3,
        0 <= a < 3,
        b.in_scene(),
        r.in_scene(),
        r.dir.coord(a) != 0,
    ensures
        b.swapped(axis).entry(r, a) == b.entry(r, a),
        b.swapped(axis).exit(r, a) == b.exit(r, a),
{
    let s = b.swapped(axis);
    if a == axis {
        let p = b.cross_min(r, a);
        let q = b.cross_max(r, a);
        assert(s.cross_min(r, a) == q);
        assert(s.cross_max(r, a) == p);
        if p.le(q) && q.le(p) {
            let (pn, qn, d) = (p.num as int, q.num as int, p.den as int);
            assert(pn == qn) by (nonlinear_arith)
                requires
                    d != 0,
                    pn * d <= qn * d,
                    qn * d <= pn * d,
            ;
        }
    } else {
        assert(s.cross_min(r, a) == b.cross_min(r, a));
        assert(s.cross_max(r, a) == b.cross_max(r, a));
    }
}

/// Exchanging the two corners of a box on any axis does not change whether a
/// ray hits it: the slab test orders each axis's crossings itself.
pub proof fn lemma_hit_swap_invariant(b: Aabb, r: Ray, t_min: Param, t_max: Param, axis: int)
    requires
        0 <= axis < 3,
        b.in_scene(),
        r.in_scene(),
    ensures
        b.swapped(axis).spec_hit(r, t_min, t_max) == b.spec_hit(r, t_min, t_max),
{
    let s = b.swapped(axis);
    assert forall|a: int| 0 <= a < 3 implies #[trigger] s.parallel_inside(r, a) == b.parallel_inside(r, a) by {}
    assert forall|a: int| 0 <= a < 3 && r.dir.coord(a) != 0 implies #[trigger] s.entry(r, a) == b.entry(r, a)
    by {
        lemma_swap_slab(b, r, axis, a);
    }
    assert forall|a: int| 0 <= a < 3 && r.dir.coord(a) != 0 implies #[trigger] s.exit(r, a) == b.exit(r, a)
    by {
        lemma_swap_slab(b, r, axis, a);
    }
    if b.spec_hit(r, t_min, t_max) {
        assert forall|a: int| 0 <= a < 3 && r.dir.coord(a) != 0 implies t_min.lt(#[trigger] s.exit(r, a))
            && s.entry(r, a).lt(t_max) by {
            lemma_swap_slab(b, r, axis, a);
            assert(t_min.lt(b.exit(r, a)) && b.entry(r, a).lt(t_max));
        }
        assert forall|a: int| 0 <= a < 3 && r.dir.coord(a) != 0 implies (#[trigger] s.entry(r, a)).lt(t_max)
        by {
            lemma_swap_slab(b, r, axis, a);
            assert(b.entry(r, a).lt(t_max));
        }
        assert forall|a: int, c: int|
            0 <= a < 3 && 0 <= c < 3 && r.dir.coord(a) != 0 && r.dir.coord(c) != 0 implies (
            #[trigger] s.entry(r, a)).lt(#[trigger] s.exit(r, c)) by {
            lemma_swap_slab(b, r, axis, a);
            lemma_swap_slab(b, r, axis, c);
            assert(b.entry(r, a).lt(b.exit(r, c)));
        }
    }
    if s.spec_hit(r, t_min, t_max) {
        assert forall|a: int| 0 <= a < 3 implies #[trigger] b.parallel_inside(r, a) by {
            assert(s.parallel_inside(r, a));
        }
        assert forall|a: int| 0 <= a < 3 && r.dir.coord(a) != 0 implies t_min.lt(#[trigger] b.exit(r, a))
            && b.entry(r, a).lt(t_max) by {
            lemma_swap_slab(b, r, axis, a);
            assert(t_min.lt(s.exit(r, a)) && s.entry(r, a).lt(t_max));
        }
        assert forall|a: int| 0 <= a < 3 && r.dir.coord(a) != 0 implies (#[trigger] b.entry(r, a)).lt(t_max)
        by {
            lemma_swap_slab(b, r, axis, a);
            assert(s.entry(r, a).lt(t_max));
        }
        assert forall|a: int, c: int|
            0 <= a < 3 && 0 <= c < 3 && r.dir.coord(a) != 0 && r.dir.coord(c) != 0 implies (
            #[trigger] b.entry(r, a)).lt(#[trigger] b.exit(r, c)) by {
            lemma_swap_slab(b, r, axis, a);
            lemma_swap_slab(b, r, axis, c);
            assert(s.entry(r, a).lt(s.exit(r, c)));
        }
    }
}

} // verus!

verus! {

/// Both crossings of a scene ray with a scene box are well-formed parameters.
pub proof fn lemma_slab_wf(b: Aabb, r: Ray, a: int)
    requires
        b.in_scene(),
        r.in_scene(),
        0 <= a < 3,
        r.dir.coord(a) != 0,
    ensures
        b.entry(r, a).wf(),
        b.exit(r, a).wf(),
{
}

/// The entry parameter is at least `t_min` and every slab entry, and it is
/// one of them.
pub proof fn lemma_enter_upto(b: Aabb, r: Ray, t_min: Param, k: int)
    requires
        b.in_scene(),
        r.in_scene(),
        t_min.wf(),
        0 <= k <= 3,
    ensures
        b.enter_upto(r, t_min, k).wf(),
        t_min.le(b.enter_upto(r, t_min, k)),
        forall|a: int| 0 <= a < k && r.dir.coord(a) != 0 ==> (#[trigger] b.entry(r, a)).le(b.enter_upto(r, t_min, k)),
        b.enter_upto(r, t_min, k) == t_min || exists|a: int|
            0 <= a < k && r.dir.coord(a) != 0 && b.enter_upto(r, t_min, k) == #[trigger] b.entry(r, a),
    decreases k,
{
    if k > 0 {
        lemma_enter_upto(b, r, t_min, k - 1);
        let t = b.enter_upto(r, t_min, k - 1);
        let p = b.enter_upto(r, t_min, k);
        if r.dir.coord(k - 1) != 0 {
            lemma_slab_wf(b, r, k - 1);
        }
        if r.dir.coord(k - 1) != 0 && t.lt(b.entry(r, k - 1)) {
            lemma_le_trans(t_min, t, p);
            assert forall|a: int| 0 <= a < k && r.dir.coord(a) != 0 implies (#[trigger] b.entry(r, a)).le(p) by {
                if a < k - 1 {
                    lemma_le_trans(b.entry(r, a), t, p);
                }
            }
        } else {
            if t != t_min {
                let a0 = choose|a: int| 0 <= a < k - 1 && r.dir.coord(a) != 0 && t == #[trigger] b.entry(r, a);
                assert(0 <= a0 < k && r.dir.coord(a0) != 0 && p == b.entry(r, a0));
            }
        }
    }
}

/// Narrowing the far end of the interval to `t_far` keeps exactly the hits
/// whose entry parameter lies before `t_far`.
pub proof fn lemma_hit_narrow(b: Aabb, r: Ray, t_min: Param, t_max: Param, t_far: Param)
    requires
        b.in_scene(),
        r.in_scene(),
        t_min.wf(),
        t_max.wf(),
        t_far.wf(),
        t_far.le(t_max),
    ensures
        b.spec_hit(r, t_min, t_far) == (b.spec_hit(r, t_min, t_max) && b.enter_param(r, t_min).lt(t_far)),
{
    lemma_enter_upto(b, r, t_min, 3);
    let p = b.enter_param(r, t_min);
    if b.spec_hit(r, t_min, t_far) {
        lemma_lt_le_trans(t_min, t_far, t_max);
        assert forall|a: int| 0 <= a < 3 && r.dir.coord(a) != 0 implies (#[trigger] b.entry(r, a)).lt(t_max) by {
            lemma_slab_wf(b, r, a);
            lemma_lt_le_trans(b.entry(r, a), t_far, t_max);
        }
        if p != t_min {
            let a0 = choose|a: int| 0 <= a < 3 && r.dir.coord(a) != 0 && p == #[trigger] b.entry(r, a);
            assert(b.entry(r, a0).lt(t_far));
        }
    }
    if b.spec_hit(r, t_min, t_max) && p.lt(t_far) {
        lemma_le_lt_trans(t_min, p, t_far);
        assert forall|a: int| 0 <= a < 3 && r.dir.coord(a) != 0 implies (#[trigger] b.entry(r, a)).lt(t_far) by {
            lemma_slab_wf(b, r, a);
            lemma_le_lt_trans(b.entry(r, a), p, t_far);
        }
    }
}

/// A hit lies before the far end of the interval.
pub proof fn lemma_hit_before_far_end(b: Aabb, r: Ray, t_min: Param, t_max: Param)
    requires
        b.in_scene(),
        r.in_scene(),
        t_min.wf(),
        t_max.wf(),
        b.spec_hit(r, t_min, t_max),
    ensures
        b.enter_param(r, t_min).lt(t_max),
        b.enter_param(r, t_min).wf(),
{
    lemma_enter_upto(b, r, t_min, 3);
    lemma_hit_narrow(b, r, t_min, t_max, t_max);
}

/// On every axis, an enclosing box's slab begins no later and ends no
/// earlier than the enclosed box's.
proof fn lemma_slab_enclosing(outer: Aabb, inner: Aabb, r: Ray, a: int)
    requires
        outer.wf(),
        inner.wf(),
        outer.contains(inner),
        r.in_scene(),
        0 <= a < 3,
        r.dir.coord(a) != 0,
    ensures
        outer.entry(r, a).le(inner.entry(r, a)),
        inner.exit(r, a).le(outer.exit(r, a)),
{
    assert(outer.min.coord(a) <= inner.min.coord(a) && inner.max.coord(a) <= outer.max.coord(a));
    assert(inner.min.coord(a) <= inner.max.coord(a) && outer.min.coord(a) <= outer.max.coord(a));
    let d = r.dir.coord(a);
    let o = r.ori.coord(a);
    let (omin, omax, imin, imax) = (outer.min.coord(a), outer.max.coord(a), inner.min.coord(a), inner.max.coord(a));
    if d > 0 {
        assert((omin - o) * d <= (omax - o) * d && (imin - o) * d <= (imax - o) * d && (omin - o) * d <= (imin - o)
            * d && (imax - o) * d <= (omax - o) * d) by (nonlinear_arith)
            requires
                d > 0,
                omin <= imin,
                imin <= imax,
                imax <= omax,
        ;
    } else {
        let e = -d;
        assert((o - omax) * e <= (o - omin) * e && (o - imax) * e <= (o - imin) * e && (o - omax) * e <= (o - imax)
            * e && (o - imin) * e <= (o - omin) * e) by (nonlinear_arith)
            requires
                e > 0,
                omin <= imin,
                imin <= imax,
                imax <= omax,
        ;
    }
}

/// A ray that hits a box hits every well-formed box enclosing it, over the
/// same interval.
pub proof fn lemma_hit_enclosing(outer: Aabb, inner: Aabb, r: Ray, t_min: Param, t_max: Param)
    requires
        outer.wf(),
        inner.wf(),
        outer.contains(inner),
        r.in_scene(),
        t_min.wf(),
        t_max.wf(),
        inner.spec_hit(r, t_min, t_max),
    ensures
        outer.spec_hit(r, t_min, t_max),
{
    assert forall|a: int| 0 <= a < 3 implies #[trigger] outer.parallel_inside(r, a) by {
        assert(inner.parallel_inside(r, a));
        assert(outer.min.coord(a) <= inner.min.coord(a) && inner.max.coord(a) <= outer.max.coord(a));
    }
    assert forall|a: int| 0 <= a < 3 && r.dir.coord(a) != 0 implies t_min.lt(#[trigger] outer.exit(r, a)) by {
        lemma_slab_enclosing(outer, inner, r, a);
        lemma_slab_wf(outer, r, a);
        lemma_slab_wf(inner, r, a);
        lemma_lt_le_trans(t_min, inner.exit(r, a), outer.exit(r, a));
    }
    assert forall|a: int| 0 <= a < 3 && r.dir.coord(a) != 0 implies (#[trigger] outer.entry(r, a)).lt(t_max) by {
        lemma_slab_enclosing(outer, inner, r, a);
        lemma_slab_wf(outer, r, a);
        lemma_slab_wf(inner, r, a);
        lemma_le_lt_trans(outer.entry(r, a), inner.entry(r, a), t_max);
    }
    assert forall|a: int, c: int|
        0 <= a < 3 && 0 <= c < 3 && r.dir.coord(a) != 0 && r.dir.coord(c) != 0 implies (
        #[trigger] outer.entry(r, a)).lt(#[trigger] outer.exit(r, c)) by {
        lemma_slab_enclosing(outer, inner, r, a);
        lemma_slab_enclosing(outer, inner, r, c);
        lemma_slab_wf(outer, r, a);
        lemma_slab_wf(inner, r, a);
        lemma_slab_wf(outer, r, c);
        lemma_slab_wf(inner, r, c);
        assert(inner.entry(r, a).lt(inner.exit(r, c)));
        lemma_le_lt_trans(outer.entry(r, a), inner.entry(r, a), inner.exit(r, c));
        lemma_lt_le_trans(outer.entry(r, a), inner.exit(r, c), outer.exit(r, c));
    }
}

} // verus!
