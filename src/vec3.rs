use vstd::prelude::*;

verus! {

/// Largest magnitude of a scene coordinate (2^30).  Scene geometry lives on an
/// integer lattice; differences of two coordinates stay within 2^31.
pub const COORD_LIMIT: i64 = 1073741824;

/// A point or direction on the integer lattice.
#[derive(Clone, Copy, PartialEq, Eq, Structural, Debug)]
pub struct Vec3 {
    pub x: i64,
    pub y: i64,
    pub z: i64,
}

impl Vec3 {
    /// Component `axis` (0 = x, 1 = y, 2 = z).
    pub open spec fn coord(self, axis: int) -> int {
        if axis == 0 {
            self.x as int
        } else if axis == 1 {
            self.y as int
        } else {
            self.z as int
        }
    }

    /// Every component lies within `[-limit, limit]`.
    pub open spec fn bounded_by(self, limit: int) -> bool {
        -limit <= self.x <= limit && -limit <= self.y <= limit && -limit <= self.z <= limit
    }

    /// A scene coordinate: every component within `COORD_LIMIT`.
    pub open spec fn in_scene(self) -> bool {
        self.bounded_by(COORD_LIMIT as int)
    }

    pub open spec fn is_zero(self) -> bool {
        self.x == 0 && self.y == 0 && self.z == 0
    }

    pub fn new(x: i64, y: i64, z: i64) -> (r: Vec3)
        ensures
            r.x == x,
            r.y == y,
            r.z == z,
    {
        Vec3 { x, y, z }
    }

    /// Component `axis` (0 = x, 1 = y, anything else = z).
    pub fn get(&self, axis: usize) -> (r: i64)
        ensures
            r == self.coord(if axis < 2 { axis as int } else { 2 }),
    {
        if axis == 0 {
            self.x
        } else if axis == 1 {
            self.y
        } else {
            self.z
        }
    }
}

/// Dot product over the integers.
pub open spec fn dot(a: Vec3, b: Vec3) -> int {
    a.x * b.x + a.y * b.y + a.z * b.z
}

/// Cross product over the integers, component by component.
pub open spec fn cross_x(a: Vec3, b: Vec3) -> int {
    a.y * b.z - a.z * b.y
}

pub open spec fn cross_y(a: Vec3, b: Vec3) -> int {
    a.z * b.x - a.x * b.z
}

pub open spec fn cross_z(a: Vec3, b: Vec3) -> int {
    a.x * b.y - a.y * b.x
}

/// The cross product `a × b`.
pub open spec fn spec_cross(a: Vec3, b: Vec3) -> Vec3 {
    Vec3 { x: cross_x(a, b) as i64, y: cross_y(a, b) as i64, z: cross_z(a, b) as i64 }
}

/// The cross product of two scene vectors.
pub fn cross(a: Vec3, b: Vec3) -> (r: Vec3)
    requires
        a.in_scene(),
        b.in_scene(),
    ensures
        r.x == cross_x(a, b),
        r.y == cross_y(a, b),
        r.z == cross_z(a, b),
        r == spec_cross(a, b),
{
    proof {
        lemma_product_bound(a.y as int, b.z as int);
        lemma_product_bound(a.z as int, b.y as int);
        lemma_product_bound(a.z as int, b.x as int);
        lemma_product_bound(a.x as int, b.z as int);
        lemma_product_bound(a.x as int, b.y as int);
        lemma_product_bound(a.y as int, b.x as int);
    }
    Vec3 { x: a.y * b.z - a.z * b.y, y: a.z * b.x - a.x * b.z, z: a.x * b.y - a.y * b.x }
}

/// A product of two scene coordinates stays within 2^60.
pub proof fn lemma_product_bound(p: int, q: int)
    requires
        -COORD_LIMIT <= p <= COORD_LIMIT,
        -COORD_LIMIT <= q <= COORD_LIMIT,
    ensures
        -0x1000_0000_0000_0000 <= p * q <= 0x1000_0000_0000_0000,
{
    assert(-0x1000_0000_0000_0000 <= p * q <= 0x1000_0000_0000_0000) by (nonlinear_arith)
        requires
            -1073741824 <= p <= 1073741824,
            -1073741824 <= q <= 1073741824,
    ;
}

/// The cross product is orthogonal to both of its factors.
pub proof fn lemma_cross_orthogonal(a: Vec3, b: Vec3)
    ensures
        a.x * cross_x(a, b) + a.y * cross_y(a, b) + a.z * cross_z(a, b) == 0,
        b.x * cross_x(a, b) + b.y * cross_y(a, b) + b.z * cross_z(a, b) == 0,
{
    let (ax, ay, az, bx, by, bz) = (a.x as int, a.y as int, a.z as int, b.x as int, b.y as int, b.z as int);
    assert(ax * (ay * bz - az * by) + ay * (az * bx - ax * bz) + az * (ax * by - ay * bx) == 0)
        by (nonlinear_arith);
    assert(bx * (ay * bz - az * by) + by * (az * bx - ax * bz) + bz * (ax * by - ay * bx) == 0)
        by (nonlinear_arith);
}

} // verus!
