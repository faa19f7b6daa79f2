use vstd::prelude::*;
use crate::vec3::{cross, cross_x, cross_y, cross_z, dot, lemma_cross_orthogonal, spec_cross, Vec3, COORD_LIMIT};

verus! {

/// Largest magnitude of a component of the vector that a basis is built
/// around (2^20), so that every product in the basis fits in an `i64`.
pub const BASIS_LIMIT: i64 = 1048576;

/// A right-handed orthogonal frame `(u, v, w)` built around `w`.
#[derive(Clone, Copy, PartialEq, Eq, Structural, Debug)]
pub struct ONB {
    pub u: Vec3,
    pub v: Vec3,
    pub w: Vec3,
}

/// The helper axis crossed with `w`: the y axis where `w` lies within about
/// 25 degrees of the x axis (its x component exceeds 0.9 of its length),
/// the x axis otherwise, so that the two are never parallel.
pub open spec fn helper_axis(w: Vec3) -> Vec3 {
    if 100 * (w.x * w.x) > 81 * dot(w, w) {
        Vec3 { x: 0, y: 1, z: 0 }
    } else {
        Vec3 { x: 1, y: 0, z: 0 }
    }
}

impl ONB {
    /// The frame around `w`: `v = w × helper`, `u = w × v`.
    pub open spec fn spec_from_w(w: Vec3) -> ONB {
        let v = spec_cross(w, helper_axis(w));
        ONB { u: spec_cross(w, v), v, w }
    }

    /// The three axes are pairwise orthogonal.
    pub open spec fn orthogonal(self) -> bool {
        dot(self.u, self.v) == 0 && dot(self.v, self.w) == 0 && dot(self.u, self.w) == 0
    }

    /// Component `axis` of `u * a.x + v * a.y + w * a.z`.
    pub open spec fn local_coord(self, a: Vec3, axis: int) -> int {
        self.u.coord(axis) * a.x + self.v.coord(axis) * a.y + self.w.coord(axis) * a.z
    }

    /// Builds the orthogonal frame around `w`.  A non-zero `w` gives non-zero
    /// `u` and `v`.
    pub fn build_from_w(w: Vec3) -> (r: ONB)
        requires
            w.bounded_by(BASIS_LIMIT as int),
        ensures
            r == ONB::spec_from_w(w),
            r.w == w,
            r.orthogonal(),
            !w.is_zero() ==> !r.u.is_zero() && !r.v.is_zero(),
    {
        proof {
            assert(0 <= w.x * w.x <= 0x100_0000_0000) by (nonlinear_arith)
                requires
                    -1048576 <= w.x <= 1048576,
            ;
            assert(0 <= w.y * w.y <= 0x100_0000_0000) by (nonlinear_arith)
                requires
                    -1048576 <= w.y <= 1048576,
            ;
            assert(0 <= w.z * w.z <= 0x100_0000_0000) by (nonlinear_arith)
                requires
                    -1048576 <= w.z <= 1048576,
            ;
        }
        let a = if 100 * (w.x * w.x) > 81 * (w.x * w.x + w.y * w.y + w.z * w.z) {
            Vec3::new(0, 1, 0)
        } else {
            Vec3::new(1, 0, 0)
        };
        let v = cross(w, a);
        proof {
            assert(v.bounded_by(BASIS_LIMIT as int));
        }
        let u = cross(w, v);
        proof {
            lemma_cross_orthogonal(w, a);
            lemma_cross_orthogonal(w, v);
            assert(w.x * v.x + w.y * v.y + w.z * v.z == 0);
            assert(dot(v, w) == 0) by (nonlinear_arith)
                requires
                    w.x * v.x + w.y * v.y + w.z * v.z == 0,
            ;
            assert(w.x * u.x + w.y * u.y + w.z * u.z == 0);
            assert(v.x * u.x + v.y * u.y + v.z * u.z == 0);
            assert(dot(u, w) == 0) by (nonlinear_arith)
                requires
                    w.x * u.x + w.y * u.y + w.z * u.z == 0,
            ;
            assert(dot(u, v) == 0) by (nonlinear_arith)
                requires
                    v.x * u.x + v.y * u.y + v.z * u.z == 0,
            ;
            if !w.is_zero() {
                if a.y == 1 {
                    assert(w.x != 0) by (nonlinear_arith)
                        requires
                            100 * (w.x * w.x) > 81 * (w.x * w.x + w.y * w.y + w.z * w.z),
                    ;
                    assert(v.x == -w.z && v.z == w.x);
                    assert(u.y == -(w.z * w.z + w.x * w.x)) by (nonlinear_arith)
                        requires
                            u.y == w.z * v.x - w.x * v.z,
                            v.x == -w.z,
                            v.z == w.x,
                    ;
                    assert(w.z * w.z + w.x * w.x > 0) by (nonlinear_arith)
                        requires
                            w.x != 0,
                    ;
                } else {
                    assert(w.y != 0 || w.z != 0) by (nonlinear_arith)
                        requires
                            100 * (w.x * w.x) <= 81 * (w.x * w.x + w.y * w.y + w.z * w.z),
                            !w.is_zero(),
                    ;
                    assert(v.y == w.z && v.z == -w.y);
                    assert(u.x == -(w.y * w.y + w.z * w.z)) by (nonlinear_arith)
                        requires
                            u.x == w.y * v.z - w.z * v.y,
                            v.y == w.z,
                            v.z == -w.y,
                    ;
                    assert(w.y * w.y + w.z * w.z > 0) by (nonlinear_arith)
                        requires
                            w.y != 0 || w.z != 0,
                    ;
                }
            }
        }
        ONB { u, v, w }
    }

    /// The vector with coordinates `a` in this frame:
    /// `u * a.x + v * a.y + w * a.z`.
    pub fn local(&self, a: Vec3) -> (r: Vec3)
        requires
            a.in_scene(),
            forall|axis: int| 0 <= axis < 3 ==> i64::MIN <= #[trigger] self.local_coord(a, axis) <= i64::MAX,
        ensures
            r.x == self.local_coord(a, 0),
            r.y == self.local_coord(a, 1),
            r.z == self.local_coord(a, 2),
    {
        proof {
            assert forall|p: int, q: int|
                i64::MIN <= p <= i64::MAX && -COORD_LIMIT <= q <= COORD_LIMIT implies -0x8000_0000_0000_0000_0000_0000
                <= #[trigger] (p * q) <= 0x8000_0000_0000_0000_0000_0000 by {
                assert(-0x8000_0000_0000_0000_0000_0000 <= p * q <= 0x8000_0000_0000_0000_0000_0000)
                    by (nonlinear_arith)
                    requires
                        -0x8000_0000_0000_0000 <= p <= 0x8000_0000_0000_0000,
                        -0x4000_0000 <= q <= 0x4000_0000,
                ;
            }
            assert(self.local_coord(a, 0) == self.u.x * a.x + self.v.x * a.y + self.w.x * a.z);
            assert(self.local_coord(a, 1) == self.u.y * a.x + self.v.y * a.y + self.w.y * a.z);
            assert(self.local_coord(a, 2) == self.u.z * a.x + self.v.z * a.y + self.w.z * a.z);
        }
        let x = self.u.x as i128 * a.x as i128 + self.v.x as i128 * a.y as i128 + self.w.x as i128 * a.z as i128;
        let y = self.u.y as i128 * a.x as i128 + self.v.y as i128 * a.y as i128 + self.w.y as i128 * a.z as i128;
        let z = self.u.z as i128 * a.x as i128 + self.v.z as i128 * a.y as i128 + self.w.z as i128 * a.z as i128;
        Vec3 { x: x as i64, y: y as i64, z: z as i64 }
    }
}

/// Cosine-weighted sampling of the hemisphere around a direction, described
/// by the frame built around it.
#[derive(Clone, Copy, PartialEq, Eq, Structural, Debug)]
pub struct CosinePDF {
    pub uvw: ONB,
}

impl CosinePDF {
    /// The density around `w`.
    pub fn new(w: Vec3) -> (r: CosinePDF)
        requires
            w.bounded_by(BASIS_LIMIT as int),
        ensures
            r.uvw == ONB::spec_from_w(w),
            r.uvw.orthogonal(),
    {
        CosinePDF { uvw: ONB::build_from_w(w) }
    }
}

} // verus!
