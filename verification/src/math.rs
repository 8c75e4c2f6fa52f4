//! Exact integer arithmetic for points on the lattice: widening products,
//! saturation, rounding division and integer square roots.

use vstd::prelude::*;

verus! {

/// A point, or a displacement, on the integer lattice. The `y` axis points up,
/// so the ground plane is spanned by `x` and `z`.
#[derive(Clone, Copy, PartialEq, Eq, Structural, Debug, Hash)]
pub struct Vec3 {
    pub x: i32,
    pub y: i32,
    pub z: i32,
}

/// The value of `v` brought into the range of `i32`.
pub open spec fn sat32(v: int) -> int {
    if v < i32::MIN {
        i32::MIN as int
    } else if v > i32::MAX {
        i32::MAX as int
    } else {
        v
    }
}

/// `r` is the largest integer whose square does not exceed `n`.
pub open spec fn is_sqrt_floor(n: int, r: int) -> bool {
    0 <= r && r * r <= n < (r + 1) * (r + 1)
}

/// The square root of `n`, rounded down (0 for a negative `n`).
pub open spec fn sqrt_floor(n: int) -> int {
    if n < 0 {
        0
    } else {
        choose|r: int| is_sqrt_floor(n, r)
    }
}

/// The square root of `n`, rounded up.
pub open spec fn sqrt_ceil(n: int) -> int {
    let r = sqrt_floor(n);
    if r * r >= n {
        r
    } else {
        r + 1
    }
}

/// The quotient `n / d` rounded to the nearest integer, halves rounding up.
/// The divisor must be positive.
pub open spec fn div_round(n: int, d: int) -> int {
    (2 * n + d) / (2 * d)
}

/// The squared length of `a - b`.
pub open spec fn dist_sq(a: Vec3, b: Vec3) -> int {
    (a.x - b.x) * (a.x - b.x) + (a.y - b.y) * (a.y - b.y) + (a.z - b.z) * (a.z - b.z)
}

/// The length of `a - b`, rounded down.
pub open spec fn dist(a: Vec3, b: Vec3) -> int {
    sqrt_floor(dist_sq(a, b))
}

/// The length of `a - b`, rounded up.
pub open spec fn dist_ceil(a: Vec3, b: Vec3) -> int {
    sqrt_ceil(dist_sq(a, b))
}

/// Twice the signed area of the triangle `a`, `b`, `c` projected on the ground
/// plane.
pub open spec fn area2(a: Vec3, b: Vec3, c: Vec3) -> int {
    (b.x - a.x) * (c.z - a.z) - (b.z - a.z) * (c.x - a.x)
}

/// Every natural number has a floor square root.
pub proof fn lemma_sqrt_floor_exists(n: int)
    requires
        0 <= n,
    ensures
        is_sqrt_floor(n, sqrt_floor(n)),
    decreases n,
{
    if n == 0 {
        assert(is_sqrt_floor(0, 0));
    } else {
        lemma_sqrt_floor_exists(n - 1);
        let r = sqrt_floor(n - 1);
        if (r + 1) * (r + 1) <= n {
            assert((r + 2) * (r + 2) > n) by (nonlinear_arith)
                requires
                    0 <= r,
                    n - 1 < (r + 1) * (r + 1),
            ;
            assert(is_sqrt_floor(n, r + 1));
        } else {
            assert(is_sqrt_floor(n, r));
        }
    }
}

/// The floor square root is unique.
pub proof fn lemma_sqrt_floor_unique(n: int, r: int)
    requires
        is_sqrt_floor(n, r),
    ensures
        sqrt_floor(n) == r,
{
    assert(0 <= n) by (nonlinear_arith)
        requires
            r * r <= n,
    ;
    lemma_sqrt_floor_exists(n);
    let s = sqrt_floor(n);
    if s < r {
        assert((s + 1) * (s + 1) <= r * r) by (nonlinear_arith)
            requires
                0 <= s,
                s + 1 <= r,
        ;
    } else if r < s {
        assert((r + 1) * (r + 1) <= s * s) by (nonlinear_arith)
            requires
                0 <= r,
                r + 1 <= s,
        ;
    }
}

/// The square of the ceiling square root reaches `n`.
pub proof fn lemma_sqrt_ceil_reaches(n: int)
    requires
        0 <= n,
    ensures
        0 <= sqrt_ceil(n),
        sqrt_ceil(n) * sqrt_ceil(n) >= n,
{
    lemma_sqrt_floor_exists(n);
}

/// No smaller integer than the ceiling square root has a square that reaches
/// `n`.
pub proof fn lemma_sqrt_ceil_least(n: int, q: int)
    requires
        0 <= n,
        0 <= q,
        q * q >= n,
    ensures
        sqrt_ceil(n) <= q,
{
    lemma_sqrt_floor_exists(n);
    let r = sqrt_floor(n);
    if q < sqrt_ceil(n) {
        if r * r >= n {
            assert((q + 1) * (q + 1) <= r * r) by (nonlinear_arith)
                requires
                    0 <= q,
                    q + 1 <= r,
            ;
            assert(q * q < (q + 1) * (q + 1)) by (nonlinear_arith)
                requires
                    0 <= q,
            ;
        } else {
            assert(q * q <= r * r) by (nonlinear_arith)
                requires
                    0 <= q <= r,
            ;
        }
    }
}

/// The product of two 64-bit integers, which always fits in 128 bits.
pub fn mul_wide(a: i64, b: i64) -> (r: i128)
    ensures
        r == a * b,
{
    assert(-0x4000_0000_0000_0000_0000_0000_0000_0000 <= a * b
        <= 0x4000_0000_0000_0000_0000_0000_0000_0000) by (nonlinear_arith)
        requires
            -0x8000_0000_0000_0000 <= a <= 0x8000_0000_0000_0000,
            -0x8000_0000_0000_0000 <= b <= 0x8000_0000_0000_0000,
    ;
    (a as i128) * (b as i128)
}

/// The product of a wide factor and a narrow one.
pub fn mul_scaled(a: i128, b: i64) -> (r: i128)
    requires
        -0x40_0000_0000_0000_0000 <= a <= 0x40_0000_0000_0000_0000,
        -0x100_0000_0000 <= b <= 0x100_0000_0000,
    ensures
        r == a * b,
        -0x4000_0000_0000_0000_0000_0000_0000 <= r <= 0x4000_0000_0000_0000_0000_0000_0000,
{
    assert(-0x4000_0000_0000_0000_0000_0000_0000 <= a * b <= 0x4000_0000_0000_0000_0000_0000_0000)
        by (nonlinear_arith)
        requires
            -0x40_0000_0000_0000_0000 <= a <= 0x40_0000_0000_0000_0000,
            -0x100_0000_0000 <= b <= 0x100_0000_0000,
    ;
    a * (b as i128)
}

/// The quotient `n / d` for a divisor of either sign, rounded to the nearest
/// integer. The divisor must not be zero.
pub open spec fn div_round_signed(n: int, d: int) -> int {
    if d > 0 {
        div_round(n, d)
    } else {
        div_round(-n, -d)
    }
}

/// Brings `v` into the range of `i32`.
pub fn saturate(v: i128) -> (r: i32)
    ensures
        r == sat32(v as int),
{
    if v < -0x8000_0000 {
        i32::MIN
    } else if v > 0x7fff_ffff {
        i32::MAX
    } else {
        v as i32
    }
}

/// The square root of `n`, rounded down.
pub fn isqrt(n: u128) -> (r: u64)
    ensures
        r == sqrt_floor(n as int),
        is_sqrt_floor(n as int, r as int),
{
    let mut lo: u128 = 0;
    let mut hi: u128 = 0x1_0000_0000_0000_0000;
    assert(0x1_0000_0000_0000_0000 * 0x1_0000_0000_0000_0000 > n) by (nonlinear_arith)
        requires
            n <= 0xffff_ffff_ffff_ffff_ffff_ffff_ffff_ffff,
    ;
    while hi - lo > 1
        invariant
            lo < hi <= 0x1_0000_0000_0000_0000,
            lo * lo <= n,
            hi * hi > n,
        decreases hi - lo,
    {
        let mid: u128 = lo + (hi - lo) / 2;
        assert(mid * mid <= 0xffff_ffff_ffff_ffff * 0xffff_ffff_ffff_ffff) by (nonlinear_arith)
            requires
                0 <= mid <= 0xffff_ffff_ffff_ffff,
        ;
        if mid * mid <= n {
            lo = mid;
        } else {
            hi = mid;
        }
    }
    proof {
        assert(hi == lo + 1);
        lemma_sqrt_floor_unique(n as int, lo as int);
    }
    lo as u64
}

/// The square root of `n`, rounded up.
pub fn isqrt_ceil(n: u128) -> (r: u128)
    ensures
        r == sqrt_ceil(n as int),
        r <= 0x1_0000_0000_0000_0000,
{
    let r: u64 = isqrt(n);
    assert((r as int) * (r as int) <= 0xffff_ffff_ffff_ffff * 0xffff_ffff_ffff_ffff)
        by (nonlinear_arith)
        requires
            0 <= r <= 0xffff_ffff_ffff_ffff,
    ;
    if (r as u128) * (r as u128) >= n {
        r as u128
    } else {
        r as u128 + 1
    }
}

/// The quotient `n / d` rounded to the nearest integer, halves rounding up.
pub fn div_rounded(n: i128, d: i128) -> (r: i128)
    requires
        0 < d <= 0x1000_0000_0000_0000_0000_0000_0000_0000,
        -0x1000_0000_0000_0000_0000_0000_0000_0000 <= n <= 0x1000_0000_0000_0000_0000_0000_0000_0000,
    ensures
        r == div_round(n as int, d as int),
        2 * n + d >= 0 ==> 0 <= r <= 2 * n + d,
        2 * n + d < 0 ==> 2 * n + d - 1 <= r <= 0,
{
    let num: i128 = 2 * n + d;
    let den: i128 = 2 * d;
    if num >= 0 {
        proof {
            vstd::arithmetic::div_mod::lemma_div_nonincreasing(num as int, den as int);
            vstd::arithmetic::div_mod::lemma_div_pos_is_pos(num as int, den as int);
        }
        num / den
    } else {
        proof {
            vstd::arithmetic::div_mod::lemma_div_nonincreasing(-(num as int), den as int);
            vstd::arithmetic::div_mod::lemma_div_pos_is_pos(-(num as int), den as int);
        }
        // Round toward negative infinity.
        let q: i128 = (-num) / den;
        let m: i128 = (-num) % den;
        proof {
            let a = -(num as int);
            let b = den as int;
            let qi = q as int;
            let mi = m as int;
            vstd::arithmetic::div_mod::lemma_fundamental_div_mod(a, b);
            assert(a == b * qi + mi);
            if m == 0 {
                assert(num as int == (-qi) * b + 0) by (nonlinear_arith)
                    requires
                        a == b * qi + mi,
                        mi == 0,
                        a == -(num as int),
                ;
                vstd::arithmetic::div_mod::lemma_fundamental_div_mod_converse(
                    num as int,
                    b,
                    -qi,
                    0,
                );
            } else {
                assert(num as int == (-qi - 1) * b + (b - mi)) by (nonlinear_arith)
                    requires
                        a == b * qi + mi,
                        a == -(num as int),
                ;
                vstd::arithmetic::div_mod::lemma_fundamental_div_mod_converse(
                    num as int,
                    b,
                    -qi - 1,
                    b - mi,
                );
            }
        }
        if m == 0 {
            -q
        } else {
            -q - 1
        }
    }
}

impl Vec3 {
    /// The point with these coordinates.
    pub fn new(x: i32, y: i32, z: i32) -> (v: Vec3)
        ensures
            v == (Vec3 { x, y, z }),
    {
        Vec3 { x, y, z }
    }

    /// The origin.
    pub fn zero() -> (v: Vec3)
        ensures
            v == (Vec3 { x: 0, y: 0, z: 0 }),
    {
        Vec3 { x: 0, y: 0, z: 0 }
    }

    /// The sum of two vectors; each component saturates.
    pub open spec fn plus_spec(self, other: Vec3) -> Vec3 {
        Vec3 {
            x: sat32(self.x + other.x) as i32,
            y: sat32(self.y + other.y) as i32,
            z: sat32(self.z + other.z) as i32,
        }
    }

    /// The difference of two vectors; each component saturates.
    pub open spec fn minus_spec(self, other: Vec3) -> Vec3 {
        Vec3 {
            x: sat32(self.x - other.x) as i32,
            y: sat32(self.y - other.y) as i32,
            z: sat32(self.z - other.z) as i32,
        }
    }

    /// The sum, each coordinate saturating.
    #[verifier::when_used_as_spec(plus_spec)]
    pub fn plus(self, other: Vec3) -> (v: Vec3)
        ensures
            v == self.plus_spec(other),
    {
        Vec3 {
            x: saturate(self.x as i128 + other.x as i128),
            y: saturate(self.y as i128 + other.y as i128),
            z: saturate(self.z as i128 + other.z as i128),
        }
    }

    /// The difference, each coordinate saturating.
    #[verifier::when_used_as_spec(minus_spec)]
    pub fn minus(self, other: Vec3) -> (v: Vec3)
        ensures
            v == self.minus_spec(other),
    {
        Vec3 {
            x: saturate(self.x as i128 - other.x as i128),
            y: saturate(self.y as i128 - other.y as i128),
            z: saturate(self.z as i128 - other.z as i128),
        }
    }

    /// The squared distance to `other`.
    pub fn distance_squared(self, other: Vec3) -> (r: u128)
        ensures
            r == dist_sq(self, other),
    {
        let dx: i64 = self.x as i64 - other.x as i64;
        let dy: i64 = self.y as i64 - other.y as i64;
        let dz: i64 = self.z as i64 - other.z as i64;
        assert(0 <= dx * dx <= 0x1_0000_0000 * 0x1_0000_0000) by (nonlinear_arith)
            requires
                -0x1_0000_0000 <= dx <= 0x1_0000_0000,
        ;
        assert(0 <= dy * dy <= 0x1_0000_0000 * 0x1_0000_0000) by (nonlinear_arith)
            requires
                -0x1_0000_0000 <= dy <= 0x1_0000_0000,
        ;
        assert(0 <= dz * dz <= 0x1_0000_0000 * 0x1_0000_0000) by (nonlinear_arith)
            requires
                -0x1_0000_0000 <= dz <= 0x1_0000_0000,
        ;
        let s: i128 = mul_wide(dx, dx) + mul_wide(dy, dy) + mul_wide(dz, dz);
        s as u128
    }

    /// The distance to `other`, rounded down.
    pub fn distance(self, other: Vec3) -> (r: u64)
        ensures
            r == dist(self, other),
            r <= 0x2_0000_0000,
    {
        let r: u64 = isqrt(self.distance_squared(other));
        proof {
            lemma_dist_sq_bound(self, other);
            if r > 0x2_0000_0000 {
                assert(r * r > 0x2_0000_0000 * 0x2_0000_0000) by (nonlinear_arith)
                    requires
                        r > 0x2_0000_0000,
                ;
            }
        }
        r
    }

    /// The distance to `other`, rounded up.
    pub fn distance_ceil(self, other: Vec3) -> (r: u64)
        ensures
            r == dist_ceil(self, other),
            r <= 0x2_0000_0000,
    {
        let d: u128 = self.distance_squared(other);
        let c: u128 = isqrt_ceil(d);
        proof {
            lemma_dist_sq_bound(self, other);
            assert(0x2_0000_0000 * 0x2_0000_0000 >= d) by (nonlinear_arith)
                requires
                    d <= 3 * (0x1_0000_0000 * 0x1_0000_0000),
            ;
            lemma_sqrt_ceil_least(d as int, 0x2_0000_0000);
        }
        c as u64
    }
}

/// The distance from `a` to `b` is the distance from `b` to `a`.
pub proof fn lemma_dist_symmetric(a: Vec3, b: Vec3)
    ensures
        dist_sq(a, b) == dist_sq(b, a),
        dist(a, b) == dist(b, a),
        dist_ceil(a, b) == dist_ceil(b, a),
{
    assert(dist_sq(a, b) == dist_sq(b, a)) by (nonlinear_arith);
}

/// Squared distances between lattice points stay far below 128 bits.
pub proof fn lemma_dist_sq_bound(a: Vec3, b: Vec3)
    ensures
        0 <= dist_sq(a, b) <= 3 * (0x1_0000_0000 * 0x1_0000_0000),
{
    let dx = a.x - b.x;
    let dy = a.y - b.y;
    let dz = a.z - b.z;
    assert(0 <= dx * dx <= 0x1_0000_0000 * 0x1_0000_0000) by (nonlinear_arith)
        requires
            -0x1_0000_0000 <= dx <= 0x1_0000_0000,
    ;
    assert(0 <= dy * dy <= 0x1_0000_0000 * 0x1_0000_0000) by (nonlinear_arith)
        requires
            -0x1_0000_0000 <= dy <= 0x1_0000_0000,
    ;
    assert(0 <= dz * dz <= 0x1_0000_0000 * 0x1_0000_0000) by (nonlinear_arith)
        requires
            -0x1_0000_0000 <= dz <= 0x1_0000_0000,
    ;
}

/// Twice the signed area of the triangle `a`, `b`, `c` projected on the ground
/// plane: positive where `c` lies on the side of increasing `z` of the ray
/// from `a` through `b` when that ray runs along increasing `x`.
pub fn triangle_area_2(a: Vec3, b: Vec3, c: Vec3) -> (r: i128)
    ensures
        r == area2(a, b, c),
{
    let ux: i64 = b.x as i64 - a.x as i64;
    let uz: i64 = b.z as i64 - a.z as i64;
    let wx: i64 = c.x as i64 - a.x as i64;
    let wz: i64 = c.z as i64 - a.z as i64;
    assert(-(0x1_0000_0000 * 0x1_0000_0000) <= ux * wz <= 0x1_0000_0000 * 0x1_0000_0000)
        by (nonlinear_arith)
        requires
            -0x1_0000_0000 <= ux <= 0x1_0000_0000,
            -0x1_0000_0000 <= wz <= 0x1_0000_0000,
    ;
    assert(-(0x1_0000_0000 * 0x1_0000_0000) <= uz * wx <= 0x1_0000_0000 * 0x1_0000_0000)
        by (nonlinear_arith)
        requires
            -0x1_0000_0000 <= uz <= 0x1_0000_0000,
            -0x1_0000_0000 <= wx <= 0x1_0000_0000,
    ;
    mul_wide(ux, wz) - mul_wide(uz, wx)
}

/// The product of two pairs of numbers, paired the other way.
pub proof fn lemma_swap_pairs(w: int, x: int, y: int, z: int)
    ensures
        (w * x) * (y * z) == (w * z) * (y * x),
        (w * w) * (x * x) == (w * x) * (w * x),
{
    assert((w * x) * (y * z) == (w * z) * (y * x)) by (nonlinear_arith);
    assert((w * w) * (x * x) == (w * x) * (w * x)) by (nonlinear_arith);
}

/// The inner product of two vectors, squared, is at most the product of
/// their squared lengths.
pub proof fn lemma_inner_product(a1: int, a2: int, a3: int, b1: int, b2: int, b3: int)
    ensures
        (a1 * b1 + a2 * b2 + a3 * b3) * (a1 * b1 + a2 * b2 + a3 * b3) <= (a1 * a1 + a2 * a2 + a3
            * a3) * (b1 * b1 + b2 * b2 + b3 * b3),
{
    let x11 = a1 * b1;
    let x12 = a1 * b2;
    let x13 = a1 * b3;
    let x21 = a2 * b1;
    let x22 = a2 * b2;
    let x23 = a2 * b3;
    let x31 = a3 * b1;
    let x32 = a3 * b2;
    let x33 = a3 * b3;
    let s1 = a1 * a1;
    let s2 = a2 * a2;
    let s3 = a3 * a3;
    let t1 = b1 * b1;
    let t2 = b2 * b2;
    let t3 = b3 * b3;
    lemma_swap_pairs(a1, b1, a1, b1);
    lemma_swap_pairs(a1, b2, a1, b2);
    lemma_swap_pairs(a1, b3, a1, b3);
    lemma_swap_pairs(a2, b1, a2, b1);
    lemma_swap_pairs(a2, b2, a2, b2);
    lemma_swap_pairs(a2, b3, a2, b3);
    lemma_swap_pairs(a3, b1, a3, b1);
    lemma_swap_pairs(a3, b2, a3, b2);
    lemma_swap_pairs(a3, b3, a3, b3);
    assert(s1 * t1 == x11 * x11 && s1 * t2 == x12 * x12 && s1 * t3 == x13 * x13);
    assert(s2 * t1 == x21 * x21 && s2 * t2 == x22 * x22 && s2 * t3 == x23 * x23);
    assert(s3 * t1 == x31 * x31 && s3 * t2 == x32 * x32 && s3 * t3 == x33 * x33);
    lemma_swap_pairs(a1, b1, a2, b2);
    lemma_swap_pairs(a1, b1, a3, b3);
    lemma_swap_pairs(a2, b2, a3, b3);
    assert(x11 * x22 == x12 * x21);
    assert(x11 * x33 == x13 * x31);
    assert(x22 * x33 == x23 * x32);
    assert((s1 + s2 + s3) * (t1 + t2 + t3) == s1 * t1 + s1 * t2 + s1 * t3 + s2 * t1 + s2 * t2 + s2
        * t3 + s3 * t1 + s3 * t2 + s3 * t3) by (nonlinear_arith);
    assert((x11 + x22 + x33) * (x11 + x22 + x33) == x11 * x11 + x22 * x22 + x33 * x33 + 2 * (x11
        * x22) + 2 * (x11 * x33) + 2 * (x22 * x33)) by (nonlinear_arith);
    assert((x12 - x21) * (x12 - x21) == x12 * x12 - 2 * (x12 * x21) + x21 * x21)
        by (nonlinear_arith);
    assert((x13 - x31) * (x13 - x31) == x13 * x13 - 2 * (x13 * x31) + x31 * x31)
        by (nonlinear_arith);
    assert((x23 - x32) * (x23 - x32) == x23 * x23 - 2 * (x23 * x32) + x32 * x32)
        by (nonlinear_arith);
    assert((x12 - x21) * (x12 - x21) >= 0) by (nonlinear_arith);
    assert((x13 - x31) * (x13 - x31) >= 0) by (nonlinear_arith);
    assert((x23 - x32) * (x23 - x32) >= 0) by (nonlinear_arith);
}

/// The triangle inequality on the lattice: where `p` is at least the
/// distance from `a` to `b` and `q` at least the distance from `b` to `c`,
/// `p + q` is at least the distance from `a` to `c`; and more, where `q` is
/// more than the distance from `b` to `c`.
pub proof fn lemma_triangle(a: Vec3, b: Vec3, c: Vec3, p: int, q: int)
    requires
        0 <= p,
        0 <= q,
        p * p >= dist_sq(a, b),
        q * q >= dist_sq(b, c),
    ensures
        (p + q) * (p + q) >= dist_sq(a, c),
        q * q > dist_sq(b, c) ==> (p + q) * (p + q) > dist_sq(a, c),
{
    let u1 = a.x - b.x;
    let u2 = a.y - b.y;
    let u3 = a.z - b.z;
    let v1 = b.x - c.x;
    let v2 = b.y - c.y;
    let v3 = b.z - c.z;
    let uu = u1 * u1 + u2 * u2 + u3 * u3;
    let vv = v1 * v1 + v2 * v2 + v3 * v3;
    let uv = u1 * v1 + u2 * v2 + u3 * v3;
    assert(uu == dist_sq(a, b));
    assert(vv == dist_sq(b, c));
    assert(dist_sq(a, c) == uu + 2 * uv + vv) by {
        assert((u1 + v1) * (u1 + v1) == u1 * u1 + 2 * (u1 * v1) + v1 * v1) by (nonlinear_arith);
        assert((u2 + v2) * (u2 + v2) == u2 * u2 + 2 * (u2 * v2) + v2 * v2) by (nonlinear_arith);
        assert((u3 + v3) * (u3 + v3) == u3 * u3 + 2 * (u3 * v3) + v3 * v3) by (nonlinear_arith);
        assert(a.x - c.x == u1 + v1 && a.y - c.y == u2 + v2 && a.z - c.z == u3 + v3);
    }
    lemma_inner_product(u1, u2, u3, v1, v2, v3);
    assert(uv * uv <= uu * vv);
    assert(uu >= 0 && vv >= 0) by (nonlinear_arith)
        requires
            uu == u1 * u1 + u2 * u2 + u3 * u3,
            vv == v1 * v1 + v2 * v2 + v3 * v3,
    ;
    let pq = p * q;
    assert(uu * vv <= (p * p) * (q * q)) by (nonlinear_arith)
        requires
            0 <= uu <= p * p,
            0 <= vv <= q * q,
    ;
    lemma_swap_pairs(p, q, p, q);
    assert((p * p) * (q * q) == pq * pq);
    assert(pq >= 0) by (nonlinear_arith)
        requires
            pq == p * q,
            0 <= p,
            0 <= q,
    ;
    assert(uv <= pq) by (nonlinear_arith)
        requires
            uv * uv <= pq * pq,
            pq >= 0,
    ;
    assert((p + q) * (p + q) == p * p + 2 * pq + q * q) by (nonlinear_arith)
        requires
            pq == p * q,
    ;
}

/// Distances between lattice points, rounded either way, stay below 35
/// bits.
pub proof fn lemma_dist_bound(a: Vec3, b: Vec3)
    ensures
        0 <= dist(a, b) <= dist_ceil(a, b) <= 0x2_0000_0000,
        dist_ceil(a, b) * dist_ceil(a, b) >= dist_sq(a, b),
        dist(a, b) * dist(a, b) <= dist_sq(a, b) < (dist(a, b) + 1) * (dist(a, b) + 1),
{
    lemma_dist_sq_bound(a, b);
    let d = dist_sq(a, b);
    lemma_sqrt_floor_exists(d);
    lemma_sqrt_ceil_reaches(d);
    assert(0x2_0000_0000 * 0x2_0000_0000 >= d) by (nonlinear_arith)
        requires
            d <= 3 * (0x1_0000_0000 * 0x1_0000_0000),
    ;
    lemma_sqrt_ceil_least(d, 0x2_0000_0000);
}

/// Going by way of `b` is no shorter: the distance from `a` to `e`, rounded
/// down, is at most `p` plus the distance from `b` to `e`, rounded down,
/// where `p` is at least the distance from `a` to `b`.
pub proof fn lemma_detour(a: Vec3, b: Vec3, e: Vec3, p: int)
    requires
        0 <= p,
        p * p >= dist_sq(a, b),
    ensures
        dist(a, e) <= p + dist(b, e),
{
    lemma_dist_bound(a, e);
    lemma_dist_bound(b, e);
    let f = dist(b, e);
    let g = dist(a, e);
    lemma_triangle(a, b, e, p, f + 1);
    assert(g < p + f + 1) by (nonlinear_arith)
        requires
            g * g < (p + f + 1) * (p + f + 1),
            0 <= g,
            0 <= p + f + 1,
    ;
}

} // verus!
