use vstd::prelude::*;
use rand::rngs::SmallRng;
use crate::rng::{gen_range_i64, shuffle_i32};
use crate::ray::Param;
use crate::vec3::Vec3;

verus! {

/// A texture of one color everywhere.
#[derive(Clone, Copy, PartialEq, Eq, Structural, Debug)]
pub struct SolidColor {
    pub color: Vec3,
}

impl SolidColor {
    pub fn new(color: Vec3) -> (r: SolidColor)
        ensures
            r.color == color,
    {
        SolidColor { color }
    }

    /// The color at point `p`: the same everywhere.
    pub fn value(&self, p: Vec3) -> (r: Vec3)
        ensures
            r == self.color,
    {
        self.color
    }
}

/// Number of lattice cells along each axis of the noise tables.
pub const POINT_COUNT: usize = 256;

/// Largest magnitude of a component of a gradient vector; gradients are
/// scaled back to unit length where the noise is evaluated.
pub const GRADIENT_SCALE: i64 = 65536;

/// The numbers `0 .. 256` in order.
pub open spec fn identity_perm() -> Seq<i32> {
    Seq::new(POINT_COUNT as nat, |i: int| i as i32)
}

/// Each value lies in `[0, 256)`.
pub open spec fn all_cells(s: Seq<i32>) -> bool {
    forall|i: int| 0 <= i < s.len() ==> 0 <= #[trigger] s[i] < POINT_COUNT
}

/// Perlin noise tables: a permutation of the lattice cells per axis and one
/// gradient vector per cell.
#[derive(Clone, Debug)]
pub struct Perlin {
    pub perm_x: Vec<i32>,
    pub perm_y: Vec<i32>,
    pub perm_z: Vec<i32>,
    pub ranvec: Vec<Vec3>,
}

impl Perlin {
    /// Tables of the right size, with every permutation entry a cell index.
    pub open spec fn wf(self) -> bool {
        &&& self.perm_x.len() == POINT_COUNT && all_cells(self.perm_x@)
        &&& self.perm_y.len() == POINT_COUNT && all_cells(self.perm_y@)
        &&& self.perm_z.len() == POINT_COUNT && all_cells(self.perm_z@)
        &&& self.ranvec.len() == POINT_COUNT
    }

    /// The gradient that the three lattice coordinates select: the entries of
    /// the three permutations at the coordinates' low eight bits, combined by
    /// exclusive or.
    pub open spec fn spec_cell(self, i: i32, j: i32, k: i32) -> int {
        (self.perm_x@[(i & 255) as int] ^ self.perm_y@[(j & 255) as int] ^ self.perm_z@[(k & 255) as int]) as int
    }

    /// Fresh tables: three random permutations of the cells, and random
    /// gradients with components in `[-GRADIENT_SCALE, GRADIENT_SCALE]`.
    pub fn new(rng: &mut SmallRng) -> (r: Perlin)
        ensures
            r.wf(),
            r.perm_x@.to_multiset() == identity_perm().to_multiset(),
            r.perm_y@.to_multiset() == identity_perm().to_multiset(),
            r.perm_z@.to_multiset() == identity_perm().to_multiset(),
            forall|i: int| 0 <= i < r.ranvec.len() ==> (#[trigger] r.ranvec[i]).bounded_by(GRADIENT_SCALE as int),
    {
        let perm_x = Self::perlin_generate_perm(rng);
        let perm_y = Self::perlin_generate_perm(rng);
        let perm_z = Self::perlin_generate_perm(rng);
        let ranvec = Self::perlin_generate_vec(rng);
        Perlin { perm_x, perm_y, perm_z, ranvec }
    }

    /// A random permutation of `0 .. 256`.
    fn perlin_generate_perm(rng: &mut SmallRng) -> (r: Vec<i32>)
        ensures
            r.len() == POINT_COUNT,
            r@.to_multiset() == identity_perm().to_multiset(),
            all_cells(r@),
    {
        let mut ans: Vec<i32> = Vec::new();
        let mut i: i32 = 0;
        while i < 256
            invariant
                0 <= i <= 256,
                ans@ == identity_perm().take(i as int),
            decreases 256 - i,
        {
            ans.push(i);
            i = i + 1;
            assert(ans@ =~= identity_perm().take(i as int));
        }
        assert(ans@ =~= identity_perm());
        shuffle_i32(&mut ans, rng);
        proof {
            ans@.to_multiset_ensures();
            identity_perm().to_multiset_ensures();
            assert forall|i: int| 0 <= i < ans@.len() implies 0 <= #[trigger] ans@[i] < POINT_COUNT by {
                let e = ans@[i];
                assert(ans@.contains(e));
                assert(ans@.to_multiset().count(e) > 0);
                assert(identity_perm().to_multiset().count(e) > 0);
                assert(identity_perm().contains(e));
                let j = choose|j: int| 0 <= j < identity_perm().len() && identity_perm()[j] == e;
                assert(e == j as i32);
            }
        }
        ans
    }

    /// 256 random gradient vectors.
    fn perlin_generate_vec(rng: &mut SmallRng) -> (r: Vec<Vec3>)
        ensures
            r.len() == POINT_COUNT,
            forall|i: int| 0 <= i < r.len() ==> (#[trigger] r[i]).bounded_by(GRADIENT_SCALE as int),
    {
        let mut ans: Vec<Vec3> = Vec::new();
        let mut i: usize = 0;
        while i < POINT_COUNT
            invariant
                i <= POINT_COUNT,
                ans.len() == i,
                forall|j: int| 0 <= j < ans.len() ==> (#[trigger] ans[j]).bounded_by(GRADIENT_SCALE as int),
            decreases POINT_COUNT - i,
        {
            let x = gen_range_i64(rng, -GRADIENT_SCALE, GRADIENT_SCALE + 1);
            let y = gen_range_i64(rng, -GRADIENT_SCALE, GRADIENT_SCALE + 1);
            let z = gen_range_i64(rng, -GRADIENT_SCALE, GRADIENT_SCALE + 1);
            ans.push(Vec3::new(x, y, z));
            i = i + 1;
        }
        ans
    }

    /// Index of the gradient for lattice point `(i, j, k)`.
    pub fn cell(&self, i: i32, j: i32, k: i32) -> (r: usize)
        requires
            self.wf(),
        ensures
            r == self.spec_cell(i, j, k),
            r < POINT_COUNT,
    {
        let ix = i & 255;
        let jx = j & 255;
        let kx = k & 255;
        assert(0 <= ix < 256) by (bit_vector)
            requires
                ix == i & 255,
        ;
        assert(0 <= jx < 256) by (bit_vector)
            requires
                jx == j & 255,
        ;
        assert(0 <= kx < 256) by (bit_vector)
            requires
                kx == k & 255,
        ;
        let a = self.perm_x[ix as usize];
        let b = self.perm_y[jx as usize];
        let c = self.perm_z[kx as usize];
        assert(0 <= a < 256 && 0 <= b < 256 && 0 <= c < 256);
        assert(0 <= (a ^ b ^ c) < 256) by (bit_vector)
            requires
                0 <= a < 256,
                0 <= b < 256,
                0 <= c < 256,
        ;
        (a ^ b ^ c) as usize
    }
}

/// `x` limited to `[lo, hi]`.
pub open spec fn clamp_int(x: int, lo: int, hi: int) -> int {
    if x < lo {
        lo
    } else if x > hi {
        hi
    } else {
        x
    }
}

/// The texel along an axis of `size` texels for the texture coordinate `t`:
/// `t` is limited to `[0, 1]`, scaled by `size` and rounded down, and the
/// edge `t == 1` falls on the last texel.
pub open spec fn texel(t: Param, size: int) -> int {
    let scaled = if t.num <= 0 {
        0
    } else if t.num >= t.den {
        size
    } else {
        (t.num as int) * size / (t.den as int)
    };
    clamp_int(scaled, 0, size - 1)
}

/// A texture read from an image: `pixels` holds `width * height` texels
/// row by row, top row first.
#[derive(Clone, Debug)]
pub struct ImageTexture {
    pub width: u32,
    pub height: u32,
    pub pixels: Vec<[u8; 3]>,
}

impl ImageTexture {
    pub open spec fn wf(self) -> bool {
        self.width > 0 && self.height > 0 && self.pixels.len() == self.width as int * self.height as int
    }

    /// Index into `pixels` of the texel at texture coordinates `(u, v)`; `v`
    /// runs upwards, so `v == 0` is the bottom row.
    pub open spec fn spec_index(self, u: Param, v: Param) -> int {
        (self.height - 1 - texel(v, self.height as int)) * self.width + texel(u, self.width as int)
    }

    /// A texture over the given texels; `None` when the image is empty or
    /// `pixels` does not hold `width * height` texels.
    pub fn new(width: u32, height: u32, pixels: Vec<[u8; 3]>) -> (r: Option<ImageTexture>)
        ensures
            r.is_some() == (width > 0 && height > 0 && pixels.len() == width as int * height as int),
            r.is_some() ==> r.unwrap().wf() && r.unwrap().width == width && r.unwrap().height == height
                && r.unwrap().pixels@ == pixels@,
    {
        if width == 0 || height == 0 {
            return None;
        }
        proof {
            assert((width as int) * (height as int) <= 0xffff_ffff * 0xffff_ffff) by (nonlinear_arith)
                requires
                    width <= 0xffff_ffff,
                    height <= 0xffff_ffff,
            ;
        }
        let n = width as u64 * height as u64;
        if pixels.len() as u64 != n {
            return None;
        }
        Some(ImageTexture { width, height, pixels })
    }

    /// The texel along an axis of `size` texels for coordinate `t`.
    fn texel_of(t: Param, size: u32) -> (r: u32)
        requires
            t.wf(),
            size > 0,
        ensures
            r == texel(t, size as int),
            r < size,
    {
        let scaled: u64 = if t.num <= 0 {
            0
        } else if t.num >= t.den {
            size as u64
        } else {
            proof {
                assert((t.num as int) * (size as int) < (t.den as int) * (size as int)) by (nonlinear_arith)
                    requires
                        0 < t.num < t.den,
                        size > 0,
                ;
                assert((t.num as int) * (size as int) / (t.den as int) <= size as int) by (nonlinear_arith)
                    requires
                        0 < t.num < t.den,
                        size > 0,
                        (t.num as int) * (size as int) < (t.den as int) * (size as int),
                ;
                assert((t.den as int) * (size as int) <= 0x8000_0000 * 0xffff_ffff) by (nonlinear_arith)
                    requires
                        0 < t.den <= 0x8000_0000,
                        0 < size <= 0xffff_ffff,
                ;
            }
            (t.num as u64) * (size as u64) / (t.den as u64)
        };
        if scaled > size as u64 - 1 {
            size - 1
        } else {
            scaled as u32
        }
    }

    /// The texel at texture coordinates `(u, v)`.
    pub fn value(&self, u: Param, v: Param) -> (r: [u8; 3])
        requires
            self.wf(),
            u.wf(),
            v.wf(),
        ensures
            0 <= self.spec_index(u, v) < self.pixels.len(),
            r == self.pixels@[self.spec_index(u, v)],
    {
        let x = Self::texel_of(u, self.width);
        let y = Self::texel_of(v, self.height);
        let row = self.height - 1 - y;
        proof {
            assert((row as int) * (self.width as int) + (x as int) < (self.height as int) * (self.width as int))
                by (nonlinear_arith)
                requires
                    row < self.height,
                    x < self.width,
            ;
            assert((self.height as int) * (self.width as int) == (self.width as int) * (self.height as int))
                by (nonlinear_arith);
        }
        self.pixels[row as usize * self.width as usize + x as usize]
    }
}

} // verus!
