use vstd::prelude::*;
use crate::ray::Param;

verus! {

/// Largest numerator or denominator accepted for a cosine or a refractive
/// index in the exact reflectance (2^10), so that every term fits an `i128`.
pub const OPTICS_LIMIT: i64 = 1024;

/// An exact ratio `num / den`.
#[derive(Clone, Copy, PartialEq, Eq, Structural, Debug)]
pub struct Ratio {
    pub num: i128,
    pub den: i128,
}

pub open spec fn pow5(x: int) -> int {
    x * x * x * x * x
}

/// Numerator of Schlick's reflectance `r0 + (1 - r0) (1 - c/e)^5` with
/// `r0 = ((1 - n/d) / (1 + n/d))^2`, over the denominator `schlick_den`:
/// `(d - n)^2 e^5 + 4 n d (e - c)^5`.
pub open spec fn schlick_num(c: int, e: int, n: int, d: int) -> int {
    (d - n) * (d - n) * pow5(e) + 4 * n * d * pow5(e - c)
}

/// Denominator of Schlick's reflectance: `(d + n)^2 e^5`.
pub open spec fn schlick_den(e: int, n: int, d: int) -> int {
    (d + n) * (d + n) * pow5(e)
}

/// A fifth power of a value in `[0, 1024]` fits in 2^50.
proof fn lemma_pow5_bound(x: int)
    requires
        0 <= x <= 1024,
    ensures
        0 <= x * x <= 0x10_0000,
        0 <= x * x * x <= 0x4000_0000,
        0 <= x * x * x * x <= 0x100_0000_0000,
        0 <= pow5(x) <= 0x4_0000_0000_0000,
{
    assert(0 <= x * x <= 0x10_0000) by (nonlinear_arith)
        requires
            0 <= x <= 1024,
    ;
    assert(0 <= x * x * x <= 0x4000_0000) by (nonlinear_arith)
        requires
            0 <= x <= 1024,
            0 <= x * x <= 0x10_0000,
    ;
    assert(0 <= x * x * x * x <= 0x100_0000_0000) by (nonlinear_arith)
        requires
            0 <= x <= 1024,
            0 <= x * x * x <= 0x4000_0000,
    ;
    assert(0 <= x * x * x * x * x <= 0x4_0000_0000_0000) by (nonlinear_arith)
        requires
            0 <= x <= 1024,
            0 <= x * x * x * x <= 0x100_0000_0000,
    ;
}

/// Schlick's approximation of the reflectance of a dielectric with
/// refractive index `ref_idx`, for a ray meeting it at an angle whose cosine
/// is `cosine`, computed exactly.
pub fn schlick(cosine: Param, ref_idx: Param) -> (r: Ratio)
    requires
        0 <= cosine.num <= cosine.den <= OPTICS_LIMIT,
        0 < cosine.den,
        0 < ref_idx.num <= OPTICS_LIMIT,
        0 < ref_idx.den <= OPTICS_LIMIT,
    ensures
        r.num == schlick_num(cosine.num as int, cosine.den as int, ref_idx.num as int, ref_idx.den as int),
        r.den == schlick_den(cosine.den as int, ref_idx.num as int, ref_idx.den as int),
        r.den > 0,
        0 <= r.num <= r.den,
{
    let c = cosine.num as i128;
    let e = cosine.den as i128;
    let n = ref_idx.num as i128;
    let d = ref_idx.den as i128;
    let ghost (ci, ei, ni, di) = (c as int, e as int, n as int, d as int);
    proof {
        lemma_pow5_bound(ei);
        lemma_pow5_bound(ei - ci);
        assert(pow5(ei) > 0) by (nonlinear_arith)
            requires
                ei > 0,
        ;
        assert(0 <= (di - ni) * (di - ni) <= 0x10_0000) by (nonlinear_arith)
            requires
                0 < ni <= 1024,
                0 < di <= 1024,
        ;
        assert(0 < (di + ni) * (di + ni) <= 0x40_0000) by (nonlinear_arith)
            requires
                0 < ni <= 1024,
                0 < di <= 1024,
        ;
        assert(0 < 4 * ni * di <= 0x40_0000) by (nonlinear_arith)
            requires
                0 < ni <= 1024,
                0 < di <= 1024,
        ;
        assert(0 <= (di - ni) * (di - ni) * pow5(ei) <= 0x10_0000 * 0x4_0000_0000_0000) by (nonlinear_arith)
            requires
                0 <= (di - ni) * (di - ni) <= 0x10_0000,
                0 <= pow5(ei) <= 0x4_0000_0000_0000,
        ;
        assert(0 <= 4 * ni * di * pow5(ei - ci) <= 0x40_0000 * 0x4_0000_0000_0000) by (nonlinear_arith)
            requires
                0 < 4 * ni * di <= 0x40_0000,
                0 <= pow5(ei - ci) <= 0x4_0000_0000_0000,
        ;
        assert(0 < (di + ni) * (di + ni) * pow5(ei) <= 0x40_0000 * 0x4_0000_0000_0000) by (nonlinear_arith)
            requires
                0 < (di + ni) * (di + ni) <= 0x40_0000,
                0 < pow5(ei),
                pow5(ei) <= 0x4_0000_0000_0000,
        ;
        assert(pow5(ei - ci) <= pow5(ei)) by (nonlinear_arith)
            requires
                0 <= ei - ci <= ei,
        ;
        assert(schlick_num(ci, ei, ni, di) <= schlick_den(ei, ni, di)) by (nonlinear_arith)
            requires
                pow5(ei - ci) <= pow5(ei),
                0 <= pow5(ei - ci),
                0 < ni,
                0 < di,
        ;
    }
    let e5 = e * e * e * e * e;
    let k = e - c;
    let k5 = k * k * k * k * k;
    let num = (d - n) * (d - n) * e5 + 4 * n * d * k5;
    let den = (d + n) * (d + n) * e5;
    Ratio { num, den }
}

/// At normal incidence Schlick's reflectance is the base reflectance
/// `((1 - n/d) / (1 + n/d))^2 = (d - n)^2 / (d + n)^2`.
pub proof fn lemma_schlick_normal_incidence(e: int, n: int, d: int)
    requires
        e > 0,
    ensures
        schlick_num(e, e, n, d) * ((d + n) * (d + n)) == ((d - n) * (d - n)) * schlick_den(e, n, d),
{
    assert(pow5(e - e) == 0);
    assert(schlick_num(e, e, n, d) == (d - n) * (d - n) * pow5(e));
    assert((d - n) * (d - n) * pow5(e) * ((d + n) * (d + n)) == ((d - n) * (d - n)) * ((d + n) * (d + n) * pow5(e)))
        by (nonlinear_arith);
}

} // verus!
