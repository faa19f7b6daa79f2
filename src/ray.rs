use vstd::prelude::*;
use crate::vec3::Vec3;

verus! {

/// Largest magnitude of the numerator or denominator of a ray parameter (2^31).
pub const PARAM_LIMIT: i64 = 2147483648;

/// An exact ray parameter `num / den` with a positive denominator.
#[derive(Clone, Copy, PartialEq, Eq, Structural, Debug)]
pub struct Param {
    pub num: i64,
    pub den: i64,
}

impl Param {
    pub open spec fn wf(self) -> bool {
        0 < self.den <= PARAM_LIMIT && -PARAM_LIMIT <= self.num <= PARAM_LIMIT
    }

    /// `self < o` as rational numbers.
    pub open spec fn lt(self, o: Param) -> bool {
        self.num * o.den < o.num * self.den
    }

    /// `self <= o` as rational numbers.
    pub open spec fn le(self, o: Param) -> bool {
        self.num * o.den <= o.num * self.den
    }

    /// The parameter `num / den`.
    pub fn new(num: i64, den: i64) -> (r: Param)
        requires
            0 < den <= PARAM_LIMIT,
            -PARAM_LIMIT <= num <= PARAM_LIMIT,
        ensures
            r.num == num,
            r.den == den,
            r.wf(),
    {
        Param { num, den }
    }

    /// The whole number `n`.
    pub fn whole(n: i64) -> (r: Param)
        requires
            -PARAM_LIMIT <= n <= PARAM_LIMIT,
        ensures
            r.num == n,
            r.den == 1,
            r.wf(),
    {
        Param { num: n, den: 1 }
    }

    /// Exact comparison `self < o`.
    pub fn less_than(&self, o: &Param) -> (r: bool)
        requires
            self.wf(),
            o.wf(),
        ensures
            r == self.lt(*o),
    {
        proof {
            lemma_cross_bound(self.num as int, o.den as int);
            lemma_cross_bound(o.num as int, self.den as int);
        }
        self.num * o.den < o.num * self.den
    }
}

/// A product of a numerator and a denominator fits easily in an `i64`.
pub proof fn lemma_cross_bound(n: int, d: int)
    requires
        -PARAM_LIMIT <= n <= PARAM_LIMIT,
        0 < d <= PARAM_LIMIT,
    ensures
        -0x4000_0000_0000_0000 <= n * d <= 0x4000_0000_0000_0000,
{
    assert(-0x4000_0000_0000_0000 <= n * d <= 0x4000_0000_0000_0000) by (nonlinear_arith)
        requires
            -2147483648 <= n <= 2147483648,
            0 < d <= 2147483648,
    ;
}

/// `<=` then `<` gives `<` on parameters with positive denominators.
pub proof fn lemma_le_lt_trans(a: Param, b: Param, c: Param)
    requires
        a.den > 0,
        b.den > 0,
        c.den > 0,
        a.le(b),
        b.lt(c),
    ensures
        a.lt(c),
{
    let (an, ad, bn, bd, cn, cd) = (a.num as int, a.den as int, b.num as int, b.den as int, c.num as int, c.den as int);
    assert(an * cd < cn * ad) by (nonlinear_arith)
        requires
            ad > 0,
            bd > 0,
            cd > 0,
            an * bd <= bn * ad,
            bn * cd < cn * bd,
    ;
}

/// `<` then `<=` gives `<` on parameters with positive denominators.
pub proof fn lemma_lt_le_trans(a: Param, b: Param, c: Param)
    requires
        a.den > 0,
        b.den > 0,
        c.den > 0,
        a.lt(b),
        b.le(c),
    ensures
        a.lt(c),
{
    let (an, ad, bn, bd, cn, cd) = (a.num as int, a.den as int, b.num as int, b.den as int, c.num as int, c.den as int);
    assert(an * cd < cn * ad) by (nonlinear_arith)
        requires
            ad > 0,
            bd > 0,
            cd > 0,
            an * bd < bn * ad,
            bn * cd <= cn * bd,
    ;
}

/// A ray: origin, direction and the shutter time at which it was cast.
#[derive(Clone, Copy, PartialEq, Eq, Structural, Debug)]
pub struct Ray {
    pub ori: Vec3,
    pub dir: Vec3,
    pub time: i64,
}

impl Ray {
    /// Origin and direction are scene coordinates.
    pub open spec fn in_scene(self) -> bool {
        self.ori.in_scene() && self.dir.in_scene()
    }

    pub fn new(ori: Vec3, dir: Vec3, time: i64) -> (r: Ray)
        ensures
            r.ori == ori,
            r.dir == dir,
            r.time == time,
    {
        Ray { ori, dir, time }
    }
}

} // verus!
