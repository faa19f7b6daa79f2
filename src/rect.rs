use vstd::prelude::*;
use crate::aabb::Aabb;
use crate::ray::{Param, Ray};
use crate::vec3::{Vec3, COORD_LIMIT};

verus! {

/// Where the ray meets the plane `coord(axis) == k`, for a ray not
/// parallel to it.
pub open spec fn plane_param(r: Ray, axis: int, k: int) -> Param {
    if r.dir.coord(axis) > 0 {
        Param { num: (k - r.ori.coord(axis)) as i64, den: r.dir.coord(axis) as i64 }
    } else {
        Param { num: (r.ori.coord(axis) - k) as i64, den: -r.dir.coord(axis) as i64 }
    }
}

/// At parameter `t` the ray's coordinate on `axis` lies in `[lo, hi]`.
pub open spec fn within(r: Ray, axis: int, t: Param, lo: int, hi: int) -> bool {
    lo * t.den <= r.ori.coord(axis) * t.den + t.num * r.dir.coord(axis) <= hi * t.den
}

/// Hit of a rectangle in the plane `coord(n) == k` spanning `[a1, a2]` on
/// axis `a` and `[b1, b2]` on axis `b`: the parameter where the ray meets the
/// plane, when it lies in `[t_min, t_max]` and the point lies in the
/// rectangle; a ray parallel to the plane never hits it.
pub open spec fn spec_rect_hit(
    r: Ray,
    n: int,
    k: int,
    a: int,
    a1: int,
    a2: int,
    b: int,
    b1: int,
    b2: int,
    t_min: Param,
    t_max: Param,
) -> Option<Param> {
    if r.dir.coord(n) == 0 {
        None
    } else {
        let t = plane_param(r, n, k);
        if t_min.le(t) && t.le(t_max) && within(r, a, t, a1, a2) && within(r, b, t, b1, b2) {
            Some(t)
        } else {
            None
        }
    }
}

/// A product of a parameter part (within 2^31) and a scene coordinate
/// (within 2^30) fits in 2^61.
proof fn lemma_mixed_bound(p: int, q: int)
    requires
        -0x8000_0000 <= p <= 0x8000_0000,
        -COORD_LIMIT <= q <= COORD_LIMIT,
    ensures
        -0x2000_0000_0000_0000 <= p * q <= 0x2000_0000_0000_0000,
{
    assert(-0x2000_0000_0000_0000 <= p * q <= 0x2000_0000_0000_0000) by (nonlinear_arith)
        requires
            -0x8000_0000 <= p <= 0x8000_0000,
            -0x4000_0000 <= q <= 0x4000_0000,
    ;
}

/// Whether the ray's coordinate on `axis` at parameter `t` lies in `[lo, hi]`.
fn within_exec(ray: &Ray, axis: usize, t: Param, lo: i64, hi: i64) -> (r: bool)
    requires
        ray.in_scene(),
        axis < 3,
        t.wf(),
        -COORD_LIMIT <= lo <= COORD_LIMIT,
        -COORD_LIMIT <= hi <= COORD_LIMIT,
    ensures
        r == within(*ray, axis as int, t, lo as int, hi as int),
{
    let o = ray.ori.get(axis);
    let d = ray.dir.get(axis);
    proof {
        lemma_mixed_bound(t.den as int, lo as int);
        lemma_mixed_bound(t.den as int, hi as int);
        lemma_mixed_bound(t.den as int, o as int);
        lemma_mixed_bound(t.num as int, d as int);
        assert((t.den as int) * (lo as int) == (lo as int) * (t.den as int)) by (nonlinear_arith);
        assert((t.den as int) * (hi as int) == (hi as int) * (t.den as int)) by (nonlinear_arith);
        assert((t.den as int) * (o as int) == (o as int) * (t.den as int)) by (nonlinear_arith);
    }
    let p = o * t.den + t.num * d;
    lo * t.den <= p && p <= hi * t.den
}

/// Hit of an axis-aligned rectangle; see `spec_rect_hit`.
pub fn rect_hit(
    ray: &Ray,
    n: usize,
    k: i64,
    a: usize,
    a1: i64,
    a2: i64,
    b: usize,
    b1: i64,
    b2: i64,
    t_min: Param,
    t_max: Param,
) -> (r: Option<Param>)
    requires
        ray.in_scene(),
        n < 3,
        a < 3,
        b < 3,
        -COORD_LIMIT <= k <= COORD_LIMIT,
        -COORD_LIMIT <= a1 <= COORD_LIMIT,
        -COORD_LIMIT <= a2 <= COORD_LIMIT,
        -COORD_LIMIT <= b1 <= COORD_LIMIT,
        -COORD_LIMIT <= b2 <= COORD_LIMIT,
        t_min.wf(),
        t_max.wf(),
    ensures
        r == spec_rect_hit(*ray, n as int, k as int, a as int, a1 as int, a2 as int, b as int, b1 as int, b2 as int, t_min, t_max),
        r.is_some() ==> r.unwrap().wf(),
{
    let d = ray.dir.get(n);
    if d == 0 {
        return None;
    }
    let o = ray.ori.get(n);
    let t = if d > 0 {
        Param::new(k - o, d)
    } else {
        Param::new(o - k, -d)
    };
    let before = t.less_than(&t_min);
    let after = t_max.less_than(&t);
    if !before && !after && within_exec(ray, a, t, a1, a2) && within_exec(ray, b, t, b1, b2) {
        Some(t)
    } else {
        None
    }
}

/// A rectangle in the plane `z == k`.
#[derive(Clone, Copy, PartialEq, Eq, Structural, Debug)]
pub struct RectXY {
    pub x1: i64,
    pub x2: i64,
    pub y1: i64,
    pub y2: i64,
    pub k: i64,
}

/// A rectangle in the plane `y == k`.
#[derive(Clone, Copy, PartialEq, Eq, Structural, Debug)]
pub struct RectXZ {
    pub x1: i64,
    pub x2: i64,
    pub z1: i64,
    pub z2: i64,
    pub k: i64,
}

/// A rectangle in the plane `x == k`.
#[derive(Clone, Copy, PartialEq, Eq, Structural, Debug)]
pub struct RectYZ {
    pub y1: i64,
    pub y2: i64,
    pub z1: i64,
    pub z2: i64,
    pub k: i64,
}

pub open spec fn in_scene_coord(c: i64) -> bool {
    -COORD_LIMIT < c < COORD_LIMIT
}

impl RectXY {
    pub open spec fn in_scene(self) -> bool {
        in_scene_coord(self.x1) && in_scene_coord(self.x2) && in_scene_coord(self.y1) && in_scene_coord(self.y2)
            && in_scene_coord(self.k)
    }

    pub open spec fn spec_hit(self, r: Ray, t_min: Param, t_max: Param) -> Option<Param> {
        spec_rect_hit(r, 2, self.k as int, 0, self.x1 as int, self.x2 as int, 1, self.y1 as int, self.y2 as int, t_min, t_max)
    }

    /// Where the ray meets the rectangle within `[t_min, t_max]`.
    pub fn hit(&self, ray: &Ray, t_min: Param, t_max: Param) -> (r: Option<Param>)
        requires
            self.in_scene(),
            ray.in_scene(),
            t_min.wf(),
            t_max.wf(),
        ensures
            r == self.spec_hit(*ray, t_min, t_max),
    {
        rect_hit(ray, 2, self.k, 0, self.x1, self.x2, 1, self.y1, self.y2, t_min, t_max)
    }

    /// The rectangle's box, one lattice unit thick so that it never has an
    /// empty interior.
    pub fn bounding_box(&self) -> (r: Aabb)
        requires
            self.in_scene(),
        ensures
            r.min == (Vec3 { x: self.x1, y: self.y1, z: (self.k - 1) as i64 }),
            r.max == (Vec3 { x: self.x2, y: self.y2, z: (self.k + 1) as i64 }),
            r.in_scene(),
    {
        Aabb::new(Vec3::new(self.x1, self.y1, self.k - 1), Vec3::new(self.x2, self.y2, self.k + 1))
    }
}

impl RectXZ {
    pub open spec fn in_scene(self) -> bool {
        in_scene_coord(self.x1) && in_scene_coord(self.x2) && in_scene_coord(self.z1) && in_scene_coord(self.z2)
            && in_scene_coord(self.k)
    }

    pub open spec fn spec_hit(self, r: Ray, t_min: Param, t_max: Param) -> Option<Param> {
        spec_rect_hit(r, 1, self.k as int, 0, self.x1 as int, self.x2 as int, 2, self.z1 as int, self.z2 as int, t_min, t_max)
    }

    /// Where the ray meets the rectangle within `[t_min, t_max]`.
    pub fn hit(&self, ray: &Ray, t_min: Param, t_max: Param) -> (r: Option<Param>)
        requires
            self.in_scene(),
            ray.in_scene(),
            t_min.wf(),
            t_max.wf(),
        ensures
            r == self.spec_hit(*ray, t_min, t_max),
    {
        rect_hit(ray, 1, self.k, 0, self.x1, self.x2, 2, self.z1, self.z2, t_min, t_max)
    }

    /// The rectangle's box, one lattice unit thick.
    pub fn bounding_box(&self) -> (r: Aabb)
        requires
            self.in_scene(),
        ensures
            r.min == (Vec3 { x: self.x1, y: (self.k - 1) as i64, z: self.z1 }),
            r.max == (Vec3 { x: self.x2, y: (self.k + 1) as i64, z: self.z2 }),
            r.in_scene(),
    {
        Aabb::new(Vec3::new(self.x1, self.k - 1, self.z1), Vec3::new(self.x2, self.k + 1, self.z2))
    }
}

impl RectYZ {
    pub open spec fn in_scene(self) -> bool {
        in_scene_coord(self.y1) && in_scene_coord(self.y2) && in_scene_coord(self.z1) && in_scene_coord(self.z2)
            && in_scene_coord(self.k)
    }

    pub open spec fn spec_hit(self, r: Ray, t_min: Param, t_max: Param) -> Option<Param> {
        spec_rect_hit(r, 0, self.k as int, 1, self.y1 as int, self.y2 as int, 2, self.z1 as int, self.z2 as int, t_min, t_max)
    }

    /// Where the ray meets the rectangle within `[t_min, t_max]`.
    pub fn hit(&self, ray: &Ray, t_min: Param, t_max: Param) -> (r: Option<Param>)
        requires
            self.in_scene(),
            ray.in_scene(),
            t_min.wf(),
            t_max.wf(),
        ensures
            r == self.spec_hit(*ray, t_min, t_max),
    {
        rect_hit(ray, 0, self.k, 1, self.y1, self.y2, 2, self.z1, self.z2, t_min, t_max)
    }

    /// The rectangle's box, one lattice unit thick.
    pub fn bounding_box(&self) -> (r: Aabb)
        requires
            self.in_scene(),
        ensures
            r.min == (Vec3 { x: (self.k - 1) as i64, y: self.y1, z: self.z1 }),
            r.max == (Vec3 { x: (self.k + 1) as i64, y: self.y2, z: self.z2 }),
            r.in_scene(),
    {
        Aabb::new(Vec3::new(self.k - 1, self.y1, self.z1), Vec3::new(self.k + 1, self.y2, self.z2))
    }
}

} // verus!

verus! {

/// Narrowing the far end of the interval keeps exactly the rectangle hits
/// that lie no later than the new end.
proof fn lemma_rect_narrow(
    r: Ray,
    n: int,
    k: int,
    a: int,
    a1: int,
    a2: int,
    b: int,
    b1: int,
    b2: int,
    t_min: Param,
    t_max: Param,
    t_far: Param,
)
    requires
        r.in_scene(),
        0 <= n < 3,
        t_max.den > 0,
        t_far.den > 0,
        t_far.le(t_max),
    ensures
        spec_rect_hit(r, n, k, a, a1, a2, b, b1, b2, t_min, t_far) == match spec_rect_hit(
            r,
            n,
            k,
            a,
            a1,
            a2,
            b,
            b1,
            b2,
            t_min,
            t_max,
        ) {
            Some(t) => if t.le(t_far) {
                Some(t)
            } else {
                None
            },
            None => None,
        },
{
    if r.dir.coord(n) != 0 {
        let t = plane_param(r, n, k);
        assert(t.den > 0);
        if t.le(t_far) {
            crate::aabb::lemma_le_trans(t, t_far, t_max);
        }
    }
}

/// A box built from six rectangles, two per axis.
#[derive(Clone, Copy, Debug)]
pub struct Cuboid {
    pub box_min: Vec3,
    pub box_max: Vec3,
    pub sides: (RectXY, RectXY, RectXZ, RectXZ, RectYZ, RectYZ),
}

impl Cuboid {
    /// Every side lies within the scene.
    pub open spec fn in_scene(self) -> bool {
        &&& self.sides.0.in_scene()
        &&& self.sides.1.in_scene()
        &&& self.sides.2.in_scene()
        &&& self.sides.3.in_scene()
        &&& self.sides.4.in_scene()
        &&& self.sides.5.in_scene()
    }

    /// Hit of side `i` (0 to 5).
    pub open spec fn side_hit(self, i: int, r: Ray, t_min: Param, t_max: Param) -> Option<Param> {
        if i == 0 {
            self.sides.0.spec_hit(r, t_min, t_max)
        } else if i == 1 {
            self.sides.1.spec_hit(r, t_min, t_max)
        } else if i == 2 {
            self.sides.2.spec_hit(r, t_min, t_max)
        } else if i == 3 {
            self.sides.3.spec_hit(r, t_min, t_max)
        } else if i == 4 {
            self.sides.4.spec_hit(r, t_min, t_max)
        } else {
            self.sides.5.spec_hit(r, t_min, t_max)
        }
    }

    /// `res` is the nearest hit among the first `count` sides.
    pub open spec fn nearest_side_hit(self, count: int, r: Ray, t_min: Param, t_max: Param, res: Option<Param>) -> bool {
        match res {
            None => forall|i: int| 0 <= i < count ==> (#[trigger] self.side_hit(i, r, t_min, t_max)).is_none(),
            Some(t) => {
                &&& t.wf()
                &&& exists|i: int| 0 <= i < count && #[trigger] self.side_hit(i, r, t_min, t_max) == Some(t)
                &&& forall|i: int|
                    0 <= i < count && (#[trigger] self.side_hit(i, r, t_min, t_max)).is_some() ==> t.le(
                        self.side_hit(i, r, t_min, t_max).unwrap(),
                    )
            },
        }
    }

    /// The box with corners `box_min` and `box_max`, as its six faces.
    pub fn new(box_min: Vec3, box_max: Vec3) -> (r: Cuboid)
        ensures
            r.box_min == box_min,
            r.box_max == box_max,
            r.sides.0 == (RectXY { x1: box_min.x, x2: box_max.x, y1: box_min.y, y2: box_max.y, k: box_min.z }),
            r.sides.1 == (RectXY { x1: box_min.x, x2: box_max.x, y1: box_min.y, y2: box_max.y, k: box_max.z }),
            r.sides.2 == (RectXZ { x1: box_min.x, x2: box_max.x, z1: box_min.z, z2: box_max.z, k: box_min.y }),
            r.sides.3 == (RectXZ { x1: box_min.x, x2: box_max.x, z1: box_min.z, z2: box_max.z, k: box_max.y }),
            r.sides.4 == (RectYZ { y1: box_min.y, y2: box_max.y, z1: box_min.z, z2: box_max.z, k: box_min.x }),
            r.sides.5 == (RectYZ { y1: box_min.y, y2: box_max.y, z1: box_min.z, z2: box_max.z, k: box_max.x }),
    {
        Cuboid {
            box_min,
            box_max,
            sides: (
                RectXY { x1: box_min.x, x2: box_max.x, y1: box_min.y, y2: box_max.y, k: box_min.z },
                RectXY { x1: box_min.x, x2: box_max.x, y1: box_min.y, y2: box_max.y, k: box_max.z },
                RectXZ { x1: box_min.x, x2: box_max.x, z1: box_min.z, z2: box_max.z, k: box_min.y },
                RectXZ { x1: box_min.x, x2: box_max.x, z1: box_min.z, z2: box_max.z, k: box_max.y },
                RectYZ { y1: box_min.y, y2: box_max.y, z1: box_min.z, z2: box_max.z, k: box_min.x },
                RectYZ { y1: box_min.y, y2: box_max.y, z1: box_min.z, z2: box_max.z, k: box_max.x },
            ),
        }
    }

    /// Hit of side `i` over `[t_min, t_max]`.
    fn hit_side(&self, i: usize, ray: &Ray, t_min: Param, t_max: Param) -> (r: Option<Param>)
        requires
            self.in_scene(),
            ray.in_scene(),
            i < 6,
            t_min.wf(),
            t_max.wf(),
        ensures
            r == self.side_hit(i as int, *ray, t_min, t_max),
            r.is_some() ==> r.unwrap().wf(),
    {
        if i == 0 {
            self.sides.0.hit(ray, t_min, t_max)
        } else if i == 1 {
            self.sides.1.hit(ray, t_min, t_max)
        } else if i == 2 {
            self.sides.2.hit(ray, t_min, t_max)
        } else if i == 3 {
            self.sides.3.hit(ray, t_min, t_max)
        } else if i == 4 {
            self.sides.4.hit(ray, t_min, t_max)
        } else {
            self.sides.5.hit(ray, t_min, t_max)
        }
    }

    /// The nearest hit among the six faces over `[t_min, t_max]`: each face
    /// is tested up to the nearest hit found so far.
    pub fn hit(&self, ray: &Ray, t_min: Param, t_max: Param) -> (res: Option<Param>)
        requires
            self.in_scene(),
            ray.in_scene(),
            t_min.wf(),
            t_max.wf(),
        ensures
            self.nearest_side_hit(6, *ray, t_min, t_max, res),
    {
        let mut ans: Option<Param> = None;
        let mut closest = t_max;
        let mut i: usize = 0;
        while i < 6
            invariant
                self.in_scene(),
                ray.in_scene(),
                t_min.wf(),
                t_max.wf(),
                i <= 6,
                closest.wf(),
                closest.le(t_max),
                ans.is_none() ==> closest == t_max,
                ans.is_some() ==> closest == ans.unwrap(),
                self.nearest_side_hit(i as int, *ray, t_min, t_max, ans),
            decreases 6 - i,
        {
            proof {
                self.lemma_side_narrow(i as int, *ray, t_min, t_max, closest);
            }
            let h = self.hit_side(i, ray, t_min, closest);
            match h {
                Some(t) => {
                    proof {
                        assert(self.side_hit(i as int, *ray, t_min, t_max) == Some(t));
                        assert forall|j: int|
                            0 <= j < i + 1 && (#[trigger] self.side_hit(j, *ray, t_min, t_max)).is_some() implies t.le(
                            self.side_hit(j, *ray, t_min, t_max).unwrap(),
                        ) by {
                            if j < i {
                                let s = self.side_hit(j, *ray, t_min, t_max).unwrap();
                                self.lemma_side_wf(j, *ray, t_min, t_max);
                                crate::aabb::lemma_le_trans(t, closest, s);
                            } else {
                                assert(t.le(t));
                            }
                        }
                    }
                    ans = Some(t);
                    closest = t;
                    proof {
                        crate::aabb::lemma_le_trans(t, closest, t_max);
                    }
                },
                None => {
                    proof {
                        if let Some(c) = ans {
                            assert forall|j: int|
                                0 <= j < i + 1 && (#[trigger] self.side_hit(j, *ray, t_min, t_max)).is_some() implies c.le(
                                self.side_hit(j, *ray, t_min, t_max).unwrap(),
                            ) by {
                                if j == i {
                                    let s = self.side_hit(j, *ray, t_min, t_max).unwrap();
                                    assert(!s.le(c));
                                }
                            }
                            let w = choose|w: int| 0 <= w < i && #[trigger] self.side_hit(w, *ray, t_min, t_max) == Some(c);
                            assert(0 <= w < i + 1 && self.side_hit(w, *ray, t_min, t_max) == Some(c));
                        }
                    }
                },
            }
            i = i + 1;
        }
        ans
    }

    /// Side hits are well-formed parameters.
    proof fn lemma_side_wf(self, i: int, r: Ray, t_min: Param, t_max: Param)
        requires
            self.in_scene(),
            r.in_scene(),
            0 <= i < 6,
            self.side_hit(i, r, t_min, t_max).is_some(),
        ensures
            self.side_hit(i, r, t_min, t_max).unwrap().wf(),
    {
    }

    /// Narrowing for one side.
    proof fn lemma_side_narrow(self, i: int, r: Ray, t_min: Param, t_max: Param, t_far: Param)
        requires
            self.in_scene(),
            r.in_scene(),
            0 <= i < 6,
            t_max.wf(),
            t_far.wf(),
            t_far.le(t_max),
        ensures
            self.side_hit(i, r, t_min, t_far) == match self.side_hit(i, r, t_min, t_max) {
                Some(t) => if t.le(t_far) {
                    Some(t)
                } else {
                    None
                },
                None => None,
            },
    {
        let s = self;
        if i == 0 {
            lemma_rect_narrow(r, 2, s.sides.0.k as int, 0, s.sides.0.x1 as int, s.sides.0.x2 as int, 1, s.sides.0.y1 as int, s.sides.0.y2 as int, t_min, t_max, t_far);
        } else if i == 1 {
            lemma_rect_narrow(r, 2, s.sides.1.k as int, 0, s.sides.1.x1 as int, s.sides.1.x2 as int, 1, s.sides.1.y1 as int, s.sides.1.y2 as int, t_min, t_max, t_far);
        } else if i == 2 {
            lemma_rect_narrow(r, 1, s.sides.2.k as int, 0, s.sides.2.x1 as int, s.sides.2.x2 as int, 2, s.sides.2.z1 as int, s.sides.2.z2 as int, t_min, t_max, t_far);
        } else if i == 3 {
            lemma_rect_narrow(r, 1, s.sides.3.k as int, 0, s.sides.3.x1 as int, s.sides.3.x2 as int, 2, s.sides.3.z1 as int, s.sides.3.z2 as int, t_min, t_max, t_far);
        } else if i == 4 {
            lemma_rect_narrow(r, 0, s.sides.4.k as int, 1, s.sides.4.y1 as int, s.sides.4.y2 as int, 2, s.sides.4.z1 as int, s.sides.4.z2 as int, t_min, t_max, t_far);
        } else {
            lemma_rect_narrow(r, 0, s.sides.5.k as int, 1, s.sides.5.y1 as int, s.sides.5.y2 as int, 2, s.sides.5.z1 as int, s.sides.5.z2 as int, t_min, t_max, t_far);
        }
    }

    /// The box spanned by the two corners.
    pub fn bounding_box(&self) -> (r: Aabb)
        ensures
            r.min == self.box_min,
            r.max == self.box_max,
    {
        Aabb::new(self.box_min, self.box_max)
    }
}

} // verus!
