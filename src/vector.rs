use vstd::prelude::*;

verus! {

/// Fixed-point units per world unit. Unit directions have length `SCALE`
/// and a color channel of intensity one is `SCALE`.
pub const SCALE: i64 = 1_000_000;

/// Largest magnitude of a component that `normalize` accepts.
pub const NORMALIZE_LIMIT: i64 = 0x400_0000_0000;

/// A vector of integers, as the geometry sees it.
pub struct Vec3 {
    pub x: int,
    pub y: int,
    pub z: int,
}

impl Vec3 {
    pub open spec fn add(self, b: Vec3) -> Vec3 {
        Vec3 { x: self.x + b.x, y: self.y + b.y, z: self.z + b.z }
    }

    pub open spec fn sub(self, b: Vec3) -> Vec3 {
        Vec3 { x: self.x - b.x, y: self.y - b.y, z: self.z - b.z }
    }

    pub open spec fn neg(self) -> Vec3 {
        Vec3 { x: -self.x, y: -self.y, z: -self.z }
    }

    pub open spec fn scale(self, k: int) -> Vec3 {
        Vec3 { x: self.x * k, y: self.y * k, z: self.z * k }
    }

    pub open spec fn dot(self, b: Vec3) -> int {
        self.x * b.x + self.y * b.y + self.z * b.z
    }

    pub open spec fn cross(self, b: Vec3) -> Vec3 {
        Vec3 {
            x: self.y * b.z - self.z * b.y,
            y: self.z * b.x - self.x * b.z,
            z: self.x * b.y - self.y * b.x,
        }
    }

    pub open spec fn norm2(self) -> int {
        self.dot(self)
    }

    pub open spec fn is_zero(self) -> bool {
        self.x == 0 && self.y == 0 && self.z == 0
    }

    /// Every component has magnitude at most `k`.
    pub open spec fn within(self, k: int) -> bool {
        -k <= self.x <= k && -k <= self.y <= k && -k <= self.z <= k
    }

    pub open spec fn fits_i64(self) -> bool {
        i64::MIN <= self.x <= i64::MAX && i64::MIN <= self.y <= i64::MAX && i64::MIN <= self.z
            <= i64::MAX
    }

    /// The direction of `self` at length `SCALE`, component by component the
    /// largest magnitude whose square does not pass the exact value.
    pub open spec fn normalized(self) -> Vec3 {
        Vec3 {
            x: unit_component(self.x, self.norm2()),
            y: unit_component(self.y, self.norm2()),
            z: unit_component(self.z, self.norm2()),
        }
    }
}

/// The integer square root: the largest `r` with `r * r <= n`.
pub open spec fn sqrt_floor(n: nat) -> nat
    decreases n,
{
    if n == 0 {
        0
    } else {
        let r = sqrt_floor((n - 1) as nat);
        if (r + 1) * (r + 1) <= n {
            r + 1
        } else {
            r
        }
    }
}

/// One component `c` of a vector with squared length `n2`, scaled to length `SCALE`.
pub open spec fn unit_component(c: int, n2: int) -> int {
    let m = sqrt_floor(((c * c * SCALE * SCALE) / n2) as nat) as int;
    if c < 0 {
        -m
    } else {
        m
    }
}

pub proof fn lemma_sqrt_floor(n: nat)
    ensures
        sqrt_floor(n) * sqrt_floor(n) <= n < (sqrt_floor(n) + 1) * (sqrt_floor(n) + 1),
    decreases n,
{
    if n == 0 {
        assert(sqrt_floor(0) == 0);
        assert(0 < (sqrt_floor(n) + 1) * (sqrt_floor(n) + 1)) by (nonlinear_arith)
            requires sqrt_floor(n) == 0;
    } else {
        lemma_sqrt_floor((n - 1) as nat);
        let r = sqrt_floor((n - 1) as nat);
        assert((r + 1) * (r + 1) < (r + 2) * (r + 2)) by (nonlinear_arith);
        let s = sqrt_floor(n);
        if (r + 1) * (r + 1) <= n {
            assert(s == r + 1);
            assert(s * s <= n < (s + 1) * (s + 1)) by (nonlinear_arith)
                requires s == r + 1, (r + 1) * (r + 1) <= n, n - 1 < (r + 1) * (r + 1);
        } else {
            assert(s == r);
            assert(r * r <= n - 1);
            assert(s * s <= n < (s + 1) * (s + 1)) by (nonlinear_arith)
                requires s == r, r * r <= n - 1, !((r + 1) * (r + 1) <= n);
        }
    }
}

pub proof fn lemma_sqrt_floor_unique(n: nat, r: nat)
    requires
        r * r <= n < (r + 1) * (r + 1),
    ensures
        sqrt_floor(n) == r,
{
    lemma_sqrt_floor(n);
    let s = sqrt_floor(n);
    if s < r {
        assert((s + 1) * (s + 1) <= r * r) by (nonlinear_arith)
            requires s + 1 <= r;
    } else if s > r {
        assert((r + 1) * (r + 1) <= s * s) by (nonlinear_arith)
            requires r + 1 <= s;
    }
}

pub proof fn lemma_sqrt_floor_square(r: nat)
    ensures
        sqrt_floor(r * r) == r,
{
    assert(r * r < (r + 1) * (r + 1)) by (nonlinear_arith);
    lemma_sqrt_floor_unique(r * r, r);
}

pub proof fn lemma_sqrt_floor_monotone(a: nat, b: nat)
    requires
        a <= b,
    ensures
        sqrt_floor(a) <= sqrt_floor(b),
{
    lemma_sqrt_floor(a);
    lemma_sqrt_floor(b);
    let (s, t) = (sqrt_floor(a), sqrt_floor(b));
    if s > t {
        assert((t + 1) * (t + 1) <= s * s) by (nonlinear_arith)
            requires t + 1 <= s;
    }
}

/// The integer square root of `n`.
pub fn isqrt(n: u128) -> (r: u64)
    ensures
        r == sqrt_floor(n as nat),
{
    let mut lo: u128 = 0;
    let mut hi: u128 = 0x1_0000_0000_0000_0000;
    assert(n < hi * hi);
    while hi - lo > 1
        invariant
            lo < hi <= 0x1_0000_0000_0000_0000,
            lo * lo <= n < hi * hi,
        decreases hi - lo,
    {
        let mid: u128 = lo + (hi - lo) / 2;
        assert(mid * mid <= 0xffff_ffff_ffff_ffff * 0xffff_ffff_ffff_ffffu128) by (nonlinear_arith)
            requires mid < 0x1_0000_0000_0000_0000;
        if mid * mid <= n {
            lo = mid;
        } else {
            hi = mid;
        }
    }
    proof {
        lemma_sqrt_floor_unique(n as nat, lo as nat);
    }
    lo as u64
}

/// Floor division by a positive divisor.
pub fn div_floor(n: i128, d: i128) -> (q: i128)
    requires
        d > 0,
        n > i128::MIN,
    ensures
        q == n / d,
{
    if n >= 0 {
        n / d
    } else {
        let m: i128 = -n;
        let t: i128 = (m - 1) / d + 1;
        proof {
            let s = (m - 1) as int / d as int;
            vstd::arithmetic::div_mod::lemma_fundamental_div_mod((m - 1) as int, d as int);
            let r = (m - 1) as int % d as int;
            assert(n == (-t) * d + (d - 1 - r)) by (nonlinear_arith)
                requires m - 1 == d * s + r, t == s + 1, n == -m;
            vstd::arithmetic::div_mod::lemma_fundamental_div_mod_converse(
                n as int,
                d as int,
                -t,
                d - 1 - r,
            );
        }
        -t
    }
}

/// Largest magnitude of a component for `dot`, `length` and `cross`.
pub const DOT_LIMIT: i64 = 0x4000_0000_0000_0000;

pub proof fn lemma_mul_bound(x: int, y: int, a: int, b: int)
    requires
        -a <= x <= a,
        -b <= y <= b,
    ensures
        -(a * b) <= x * y <= a * b,
{
    assert(-(a * b) <= x * y <= a * b) by (nonlinear_arith)
        requires -a <= x <= a, -b <= y <= b;
}

pub proof fn lemma_dot_bound(u: Vec3, v: Vec3, a: int, b: int)
    requires
        u.within(a),
        v.within(b),
    ensures
        -(3 * a * b) <= u.dot(v) <= 3 * a * b,
{
    lemma_mul_bound(u.x, v.x, a, b);
    lemma_mul_bound(u.y, v.y, a, b);
    lemma_mul_bound(u.z, v.z, a, b);
    assert(3 * a * b == a * b + a * b + a * b) by (nonlinear_arith);
}

/// A point or a direction in fixed point.
#[derive(Clone, Copy, Debug, PartialEq, Eq, Structural)]
pub struct Vector {
    pub x: i64,
    pub y: i64,
    pub z: i64,
}

impl View for Vector {
    type V = Vec3;

    open spec fn view(&self) -> Vec3 {
        Vec3 { x: self.x as int, y: self.y as int, z: self.z as int }
    }
}

/// The vector `(x, y, z)`, each component fitting in `i64`.
pub fn from_wide(x: i128, y: i128, z: i128) -> (r: Vector)
    requires
        i64::MIN <= x <= i64::MAX,
        i64::MIN <= y <= i64::MAX,
        i64::MIN <= z <= i64::MAX,
    ensures
        r@ == (Vec3 { x: x as int, y: y as int, z: z as int }),
{
    Vector { x: x as i64, y: y as i64, z: z as i64 }
}

/// The component `c` of a vector of squared length `n2`, scaled to length `SCALE`.
fn unit_coord(c: i64, n2: u128) -> (r: i64)
    requires
        n2 > 0,
        c * c <= n2,
        -NORMALIZE_LIMIT <= c <= NORMALIZE_LIMIT,
    ensures
        r == unit_component(c as int, n2 as int),
        -SCALE <= r <= SCALE,
{
    let a: u128 = if c < 0 {
        (-c) as u128
    } else {
        c as u128
    };
    assert(a * a * 1_000_000 * 1_000_000 <= 0x400_0000_0000u128 * 0x400_0000_0000u128
        * 1_000_000 * 1_000_000) by (nonlinear_arith)
        requires a <= 0x400_0000_0000u128;
    let num: u128 = a * a * 1_000_000 * 1_000_000;
    let f: u128 = num / n2;
    proof {
        assert(a * a == c * c) by (nonlinear_arith)
            requires a == c || a == -c;
        lemma_unit_component(c as int, n2 as int);
    }
    let m: u64 = isqrt(f);
    if c < 0 {
        -(m as i64)
    } else {
        m as i64
    }
}

/// Facts on one component of `normalized`.
pub proof fn lemma_unit_component(c: int, n2: int)
    requires
        n2 > 0,
        c * c <= n2,
    ensures
        ({
            let f = (c * c * SCALE * SCALE) / n2;
            let m = sqrt_floor(f as nat) as int;
            &&& 0 <= f <= SCALE * SCALE
            &&& f * n2 <= c * c * SCALE * SCALE < (f + 1) * n2
            &&& m * m <= f < (m + 1) * (m + 1)
            &&& 0 <= m <= SCALE
            &&& unit_component(c, n2) * unit_component(c, n2) == m * m
            &&& (unit_component(c, n2) == m || unit_component(c, n2) == -m)
        }),
{
    let x = c * c * SCALE * SCALE;
    let f = x / n2;
    assert(x >= 0) by (nonlinear_arith)
        requires x == c * c * SCALE * SCALE;
    vstd::arithmetic::div_mod::lemma_fundamental_div_mod(x, n2);
    assert(f >= 0) by (nonlinear_arith)
        requires x == n2 * f + x % n2, 0 <= x % n2 < n2, x >= 0, n2 > 0;
    assert(f * n2 <= x < (f + 1) * n2) by (nonlinear_arith)
        requires x == n2 * f + x % n2, 0 <= x % n2 < n2;
    assert(f <= SCALE * SCALE) by (nonlinear_arith)
        requires f * n2 <= x, x == c * c * SCALE * SCALE, c * c <= n2, n2 > 0;
    lemma_sqrt_floor(f as nat);
    lemma_sqrt_floor_monotone(f as nat, (SCALE * SCALE) as nat);
    lemma_sqrt_floor_square(SCALE as nat);
    let m = sqrt_floor(f as nat) as int;
    let u = unit_component(c, n2);
    assert(u == m || u == -m);
    assert(u * u == m * m) by (nonlinear_arith)
        requires u == m || u == -m;
}

impl Vector {
    pub fn new(x: i64, y: i64, z: i64) -> (r: Vector)
        ensures
            r@ == (Vec3 { x: x as int, y: y as int, z: z as int }),
    {
        Vector { x, y, z }
    }

    pub fn dot(&self, b: &Vector) -> (r: i128)
        requires
            self@.within(DOT_LIMIT as int),
            b@.within(DOT_LIMIT as int),
        ensures
            r == self@.dot(b@),
    {
        proof {
            let k = DOT_LIMIT as int;
            lemma_mul_bound(self.x as int, b.x as int, k, k);
            lemma_mul_bound(self.y as int, b.y as int, k, k);
            lemma_mul_bound(self.z as int, b.z as int, k, k);
        }
        (self.x as i128) * (b.x as i128) + (self.y as i128) * (b.y as i128) + (self.z as i128) * (
        b.z as i128)
    }

    /// The Euclidean length, rounded down.
    pub fn length(&self) -> (r: i64)
        requires
            self@.within(DOT_LIMIT as int),
        ensures
            r == sqrt_floor(self@.norm2() as nat),
            r >= 0,
    {
        let n2 = self.dot(self);
        proof {
            let k = DOT_LIMIT as int;
            lemma_dot_bound(self@, self@, k, k);
            assert(self@.norm2() >= 0) by (nonlinear_arith)
                requires self@.norm2() == self@.x * self@.x + self@.y * self@.y + self@.z
                    * self@.z;
        }
        let r = isqrt(n2 as u128);
        proof {
            lemma_sqrt_floor(n2 as nat);
            if r >= 0x8000_0000_0000_0000u64 {
                assert(r * r >= 0x8000_0000_0000_0000u64 * 0x8000_0000_0000_0000u64)
                    by (nonlinear_arith)
                    requires r >= 0x8000_0000_0000_0000u64;
            }
        }
        r as i64
    }

    /// The vector of length about `SCALE` in the direction of `self`.
    pub fn normalize(&self) -> (r: Vector)
        requires
            !self@.is_zero(),
            self@.within(NORMALIZE_LIMIT as int),
        ensures
            r@ == self@.normalized(),
            r@.within(SCALE as int),
    {
        let n2 = self.dot(self);
        proof {
            let v = self@;
            assert(v.x * v.x >= 0 && v.y * v.y >= 0 && v.z * v.z >= 0) by (nonlinear_arith);
            assert(v.x * v.x > 0 || v.y * v.y > 0 || v.z * v.z > 0) by (nonlinear_arith)
                requires !v.is_zero();
        }
        let n2 = n2 as u128;
        Vector {
            x: unit_coord(self.x, n2),
            y: unit_coord(self.y, n2),
            z: unit_coord(self.z, n2),
        }
    }

    /// The cross product `self × b` (right-handed).
    pub fn cross(&self, b: &Vector) -> (r: Vector)
        requires
            self@.within(DOT_LIMIT as int),
            b@.within(DOT_LIMIT as int),
            self@.cross(b@).fits_i64(),
        ensures
            r@ == self@.cross(b@),
    {
        proof {
            let k = DOT_LIMIT as int;
            lemma_mul_bound(self.x as int, b.y as int, k, k);
            lemma_mul_bound(self.y as int, b.x as int, k, k);
            lemma_mul_bound(self.x as int, b.z as int, k, k);
            lemma_mul_bound(self.z as int, b.x as int, k, k);
            lemma_mul_bound(self.y as int, b.z as int, k, k);
            lemma_mul_bound(self.z as int, b.y as int, k, k);
        }
        let (ax, ay, az) = (self.x as i128, self.y as i128, self.z as i128);
        let (bx, by, bz) = (b.x as i128, b.y as i128, b.z as i128);
        from_wide(ay * bz - az * by, az * bx - ax * bz, ax * by - ay * bx)
    }

    pub fn add(&self, b: &Vector) -> (r: Vector)
        requires
            self@.add(b@).fits_i64(),
        ensures
            r@ == self@.add(b@),
    {
        from_wide(
            self.x as i128 + b.x as i128,
            self.y as i128 + b.y as i128,
            self.z as i128 + b.z as i128,
        )
    }

    /// The difference `self - b`.
    pub fn minus(&self, b: &Vector) -> (r: Vector)
        requires
            self@.sub(b@).fits_i64(),
        ensures
            r@ == self@.sub(b@),
    {
        from_wide(
            self.x as i128 - b.x as i128,
            self.y as i128 - b.y as i128,
            self.z as i128 - b.z as i128,
        )
    }

    /// Each component times `value`.
    pub fn multiply(&self, value: i64) -> (r: Vector)
        requires
            self@.scale(value as int).fits_i64(),
        ensures
            r@ == self@.scale(value as int),
    {
        proof {
            let k = i64::MAX as int + 1;
            lemma_mul_bound(self.x as int, value as int, k, k);
            lemma_mul_bound(self.y as int, value as int, k, k);
            lemma_mul_bound(self.z as int, value as int, k, k);
        }
        from_wide(
            self.x as i128 * value as i128,
            self.y as i128 * value as i128,
            self.z as i128 * value as i128,
        )
    }
}

/// Normalizing a non-zero vector gives one whose length, rounded down, is
/// `SCALE` up to a rounding of four units.
pub proof fn lemma_normalize_length(v: Vec3)
    requires
        !v.is_zero(),
    ensures
        SCALE - 4 <= sqrt_floor(v.normalized().norm2() as nat) <= SCALE,
{
    let n2 = v.norm2();
    assert(v.x * v.x >= 0 && v.y * v.y >= 0 && v.z * v.z >= 0) by (nonlinear_arith);
    assert(v.x * v.x > 0 || v.y * v.y > 0 || v.z * v.z > 0) by (nonlinear_arith)
        requires !v.is_zero();
    lemma_unit_component(v.x, n2);
    lemma_unit_component(v.y, n2);
    lemma_unit_component(v.z, n2);
    let s = SCALE as int;
    let (fx, fy, fz) = (
        (v.x * v.x * s * s) / n2,
        (v.y * v.y * s * s) / n2,
        (v.z * v.z * s * s) / n2,
    );
    let (mx, my, mz) = (
        sqrt_floor(fx as nat) as int,
        sqrt_floor(fy as nat) as int,
        sqrt_floor(fz as nat) as int,
    );
    let u = v.normalized();
    let total = u.norm2();
    assert(total == mx * mx + my * my + mz * mz);
    assert(v.x * v.x * s * s + v.y * v.y * s * s + v.z * v.z * s * s == n2 * (s * s))
        by (nonlinear_arith)
        requires n2 == v.x * v.x + v.y * v.y + v.z * v.z;
    assert(fx + fy + fz <= s * s) by (nonlinear_arith)
        requires
            fx * n2 + fy * n2 + fz * n2 <= n2 * (s * s),
            n2 > 0;
    assert(fx + fy + fz + 3 > s * s) by (nonlinear_arith)
        requires
            (fx + 1) * n2 + (fy + 1) * n2 + (fz + 1) * n2 > n2 * (s * s),
            n2 > 0;
    assert(total >= s * s - 2 - 6 * s) by (nonlinear_arith)
        requires
            fx < (mx + 1) * (mx + 1),
            fy < (my + 1) * (my + 1),
            fz < (mz + 1) * (mz + 1),
            0 <= mx <= s,
            0 <= my <= s,
            0 <= mz <= s,
            fx + fy + fz + 3 > s * s,
            total == mx * mx + my * my + mz * mz;
    lemma_sqrt_floor_monotone(total as nat, (s * s) as nat);
    lemma_sqrt_floor_square(s as nat);
    lemma_sqrt_floor_square((s - 4) as nat);
    lemma_sqrt_floor_monotone(((s - 4) * (s - 4)) as nat, total as nat);
}

/// A normalized non-zero vector is non-zero, with components of magnitude at most `SCALE`.
pub proof fn lemma_normalized_bounds(v: Vec3)
    requires
        !v.is_zero(),
    ensures
        v.normalized().within(SCALE as int),
        !v.normalized().is_zero(),
{
    let n2 = v.norm2();
    assert(v.x * v.x >= 0 && v.y * v.y >= 0 && v.z * v.z >= 0) by (nonlinear_arith);
    assert(v.x * v.x > 0 || v.y * v.y > 0 || v.z * v.z > 0) by (nonlinear_arith)
        requires !v.is_zero();
    lemma_unit_component(v.x, n2);
    lemma_unit_component(v.y, n2);
    lemma_unit_component(v.z, n2);
    lemma_normalize_length(v);
    if v.normalized().is_zero() {
        assert(v.normalized().norm2() == 0);
        assert(sqrt_floor(0) == 0);
    }
}

/// Swapping the operands of the cross product negates it.
pub proof fn lemma_cross_antisymmetric(a: Vec3, b: Vec3)
    ensures
        a.cross(b) == b.cross(a).neg(),
{
    assert(a.y * b.z == b.z * a.y && a.z * b.y == b.y * a.z && a.z * b.x == b.x * a.z && a.x
        * b.z == b.z * a.x && a.x * b.y == b.y * a.x && a.y * b.x == b.x * a.y)
        by (nonlinear_arith);
}

} // verus!
