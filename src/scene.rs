use vstd::prelude::*;
use crate::color::{Color, Rgb, COLOR_LIMIT};
use crate::vector::{
    div_floor, from_wide, isqrt, lemma_dot_bound, lemma_mul_bound, lemma_normalized_bounds,
    lemma_sqrt_floor, lemma_sqrt_floor_square, sqrt_floor, Vec3, Vector, NORMALIZE_LIMIT, SCALE,
};

verus! {

/// Largest magnitude of a coordinate of a point in the scene (about 2147 world units).
pub const COORD_LIMIT: i64 = 0x8000_0000;

/// Distance along a ray under which a sphere hit counts as the ray's own origin (1e-4).
pub const SPHERE_EPSILON: i64 = 100;

/// Distance along a ray under which a plane hit counts as the ray's own origin (1e-5).
pub const PLANE_EPSILON: i64 = 10;

/// A sphere; a light sphere emits its color, another reflects with it as albedo.
#[derive(Clone, Copy, Debug, PartialEq, Eq, Structural)]
pub struct Sphere {
    pub center: Vector,
    pub radius: i64,
    pub color: Color,
    pub light: bool,
}

/// A plane through `point` with normal `normal`, reflecting with albedo `color`.
#[derive(Clone, Copy, Debug, PartialEq, Eq, Structural)]
pub struct Plane {
    pub point: Vector,
    pub normal: Vector,
    pub color: Color,
}

#[derive(Clone, Copy, Debug, PartialEq, Eq, Structural)]
pub enum Primitive {
    Sphere(Sphere),
    Plane(Plane),
}

/// Where a ray meets a primitive.
#[derive(Clone, Copy, Debug, PartialEq, Eq, Structural)]
pub struct SurfacePoint {
    pub position: Vector,
    pub normal: Vector,
    pub color: Color,
}

/// A hit as the contracts see it.
pub struct Hit {
    pub position: Vec3,
    pub normal: Vec3,
    pub color: Rgb,
}

impl View for SurfacePoint {
    type V = Hit;

    open spec fn view(&self) -> Hit {
        Hit { position: self.position@, normal: self.normal@, color: self.color@ }
    }
}

pub open spec fn hit_view(p: Option<SurfacePoint>) -> Option<Hit> {
    match p {
        Some(s) => Some(s@),
        None => None,
    }
}

/// A ray that the tracer accepts: an origin inside the scene's bounds and a
/// non-zero direction of length at most about `SCALE`.
pub open spec fn valid_ray(origin: Vec3, direction: Vec3) -> bool {
    origin.within(COORD_LIMIT as int) && valid_direction(direction)
}

/// A non-zero direction of length at most about `SCALE`.
pub open spec fn valid_direction(d: Vec3) -> bool {
    d.within(SCALE as int) && !d.is_zero()
}

impl Sphere {
    pub open spec fn wf(self) -> bool {
        &&& self.center@.within(COORD_LIMIT as int)
        &&& 0 < self.radius <= COORD_LIMIT
        &&& self.color@.within(
            if self.light {
                COLOR_LIMIT as int
            } else {
                SCALE as int
            },
        )
    }
}

impl Plane {
    pub open spec fn wf(self) -> bool {
        &&& self.point@.within(COORD_LIMIT as int)
        &&& self.normal@.within(SCALE as int)
        &&& !self.normal@.is_zero()
        &&& self.color@.within(SCALE as int)
    }
}

impl Primitive {
    pub open spec fn wf(self) -> bool {
        match self {
            Primitive::Sphere(s) => s.wf(),
            Primitive::Plane(p) => p.wf(),
        }
    }

    pub open spec fn is_light(self) -> bool {
        match self {
            Primitive::Sphere(s) => s.light,
            Primitive::Plane(_) => false,
        }
    }
}

/// The point `o + d * num / den`, each component rounded down.
pub open spec fn ray_point(o: Vec3, d: Vec3, num: int, den: int) -> Vec3 {
    Vec3 { x: o.x + d.x * num / den, y: o.y + d.y * num / den, z: o.z + d.z * num / den }
}

/// The discriminant of `|o + t d - c|^2 = r^2` over `t`, times `d·d`.
pub open spec fn sphere_discriminant(o: Vec3, d: Vec3, s: Sphere) -> int {
    let v = o.sub(s.center@);
    let b = v.dot(d);
    b * b - d.norm2() * (v.norm2() - s.radius * s.radius)
}

/// The nearer root of the sphere's equation, as a multiple of `1 / d·d`.
pub open spec fn sphere_near_root(o: Vec3, d: Vec3, s: Sphere) -> int {
    -o.sub(s.center@).dot(d) - sqrt_floor(sphere_discriminant(o, d, s) as nat) as int
}

/// The farther root of the sphere's equation, as a multiple of `1 / d·d`.
pub open spec fn sphere_far_root(o: Vec3, d: Vec3, s: Sphere) -> int {
    -o.sub(s.center@).dot(d) + sqrt_floor(sphere_discriminant(o, d, s) as nat) as int
}

/// Whether the root `t` (a multiple of `1 / a`) lies ahead of the origin by
/// more than `eps` units.
pub open spec fn clears(t: int, a: int, eps: int) -> bool {
    t * SCALE > eps * a
}

/// The root at which the ray meets the sphere: the smallest one that clears
/// the epsilon, if any. A tangent ray misses.
pub open spec fn sphere_root(o: Vec3, d: Vec3, s: Sphere) -> Option<int> {
    let a = d.norm2();
    if sphere_discriminant(o, d, s) <= 0 {
        None
    } else if clears(sphere_near_root(o, d, s), a, SPHERE_EPSILON as int) {
        Some(sphere_near_root(o, d, s))
    } else if clears(sphere_far_root(o, d, s), a, SPHERE_EPSILON as int) {
        Some(sphere_far_root(o, d, s))
    } else {
        None
    }
}

/// Where the ray meets the sphere, with the outward normal there. The hit
/// point is the root's point rounded down, which lies within a few units of
/// the sphere; the two guards below only turn away rounding that would leave
/// no normal (a point on the center, or one farther off than `normalize`
/// takes), which a sphere of positive radius does not produce.
pub open spec fn sphere_hit(o: Vec3, d: Vec3, s: Sphere) -> Option<Hit> {
    match sphere_root(o, d, s) {
        None => None,
        Some(t) => {
            let p = ray_point(o, d, t, d.norm2());
            if !p.sub(s.center@).within(NORMALIZE_LIMIT as int) || p.sub(s.center@).is_zero() {
                None
            } else {
                Some(Hit { position: p, normal: p.sub(s.center@).normalized(), color: s.color@ })
            }
        },
    }
}

/// Where the ray meets the plane, with the plane's own normal there; a hit
/// counts wherever ahead of the origin it lies, as long as a `Vector` can
/// hold its point.
pub open spec fn plane_hit(o: Vec3, d: Vec3, pl: Plane) -> Option<Hit> {
    let n = pl.normal@;
    let num = pl.point@.sub(o).dot(n);
    let den = d.dot(n);
    if den == 0 {
        None
    } else if !(num * den * SCALE > PLANE_EPSILON * (den * den)) {
        None
    } else {
        let p = if den > 0 {
            ray_point(o, d, num, den)
        } else {
            ray_point(o, d, -num, -den)
        };
        if !p.fits_i64() {
            None
        } else {
            Some(Hit { position: p, normal: n, color: pl.color@ })
        }
    }
}

pub open spec fn primitive_hit(o: Vec3, d: Vec3, p: Primitive) -> Option<Hit> {
    match p {
        Primitive::Sphere(s) => sphere_hit(o, d, s),
        Primitive::Plane(pl) => plane_hit(o, d, pl),
    }
}

/// The nearest hit among the first `n` primitives, with its index; the first
/// of equally near hits wins.
pub open spec fn nearest_among(scene: Seq<Primitive>, o: Vec3, d: Vec3, n: nat) -> Option<
    (int, Hit),
>
    decreases n,
{
    if n == 0 {
        None
    } else {
        let best = nearest_among(scene, o, d, (n - 1) as nat);
        match primitive_hit(o, d, scene[n - 1]) {
            None => best,
            Some(h) => match best {
                None => Some(((n - 1) as int, h)),
                Some(b) => if h.position.sub(o).norm2() < b.1.position.sub(o).norm2() {
                    Some(((n - 1) as int, h))
                } else {
                    best
                },
            },
        }
    }
}

pub open spec fn nearest(scene: Seq<Primitive>, o: Vec3, d: Vec3) -> Option<(int, Hit)> {
    nearest_among(scene, o, d, scene.len())
}

pub open spec fn nearest_view(r: Option<(usize, SurfacePoint)>) -> Option<(int, Hit)> {
    match r {
        Some((i, p)) => Some((i as int, p@)),
        None => None,
    }
}

/// The nearest hit of the ray `start + t * direction` with `sphere` ahead of
/// its origin, with the outward normal there.
pub fn ray_sphere_intersection(start: &Vector, direction: &Vector, sphere: &Sphere) -> (r: Option<
    SurfacePoint,
>)
    requires
        valid_ray(start@, direction@),
        sphere.wf(),
    ensures
        hit_view(r) == sphere_hit(start@, direction@, *sphere),
{
    let ghost (o, d) = (start@, direction@);
    let v = start.minus(&sphere.center);
    let a = direction.dot(direction);
    let b = v.dot(direction);
    let v2 = v.dot(&v);
    let ghost s = SCALE as int;
    let ghost big: int = 0x1_0000_0000;
    proof {
        lemma_mul_bound(sphere.radius as int, sphere.radius as int, 0x8000_0000, 0x8000_0000);
    }
    let rr = sphere.radius as i128 * sphere.radius as i128;
    proof {
        assert(3 * big * s == 12884901888000000);
        assert(3 * s * s == 3000000000000);
        lemma_dot_bound(d, d, s, s);
        lemma_dot_bound(v@, d, big, s);
        lemma_dot_bound(v@, v@, big, big);
        assert(a > 0) by (nonlinear_arith)
            requires a == d.x * d.x + d.y * d.y + d.z * d.z, !d.is_zero();
        assert(v2 >= 0) by (nonlinear_arith)
            requires v2 == v@.x * v@.x + v@.y * v@.y + v@.z * v@.z;
        lemma_mul_bound(sphere.radius as int, sphere.radius as int, 0x8000_0000, 0x8000_0000);
        lemma_mul_bound(b as int, b as int, 3 * big * s, 3 * big * s);
        lemma_mul_bound(a as int, v2 - rr, 3 * s * s, 3 * big * big + 0x8000_0000 * 0x8000_0000);
    }
    let disc: i128 = b * b - a * (v2 - rr);
    if disc <= 0 {
        return None;
    }
    let q = isqrt(disc as u128) as i128;
    proof {
        lemma_sqrt_floor(disc as nat);
        if q >= 0x80_0000_0000_0000 {
            assert(q * q >= 0x80_0000_0000_0000int * 0x80_0000_0000_0000int) by (nonlinear_arith)
                requires q >= 0x80_0000_0000_0000int;
        }
    }
    let near: i128 = -b - q;
    let far: i128 = -b + q;
    let eps = SPHERE_EPSILON as i128;
    let t = if near * 1_000_000 > eps * a {
        near
    } else if far * 1_000_000 > eps * a {
        far
    } else {
        return None;
    };
    match point_along(start, direction, t, a) {
        None => None,
        Some(p) => {
            let lim = NORMALIZE_LIMIT as i128;
            let rx = p.x as i128 - sphere.center.x as i128;
            let ry = p.y as i128 - sphere.center.y as i128;
            let rz = p.z as i128 - sphere.center.z as i128;
            if !(-lim <= rx && rx <= lim && -lim <= ry && ry <= lim && -lim <= rz && rz <= lim) {
                return None;
            }
            let rel = from_wide(rx, ry, rz);
            if rel.x == 0 && rel.y == 0 && rel.z == 0 {
                None
            } else {
                Some(SurfacePoint { position: p, normal: rel.normalize(), color: sphere.color })
            }
        },
    }
}

/// The hit of the ray `start + t * direction` with `plane` ahead of its
/// origin; a ray parallel to the plane misses it.
pub fn ray_plane_intersection(start: &Vector, direction: &Vector, plane: &Plane) -> (r: Option<
    SurfacePoint,
>)
    requires
        valid_ray(start@, direction@),
        plane.wf(),
    ensures
        hit_view(r) == plane_hit(start@, direction@, *plane),
{
    let ghost (o, d, n) = (start@, direction@, plane.normal@);
    let w = plane.point.minus(start);
    let num = w.dot(&plane.normal);
    let den = direction.dot(&plane.normal);
    let ghost s = SCALE as int;
    let ghost big: int = 0x1_0000_0000;
    proof {
        assert(3 * big * s == 12884901888000000);
        assert(3 * s * s == 3000000000000);
        lemma_dot_bound(w@, n, big, s);
        lemma_dot_bound(d, n, s, s);
        lemma_mul_bound(num as int, den as int, 3 * big * s, 3 * s * s);
        lemma_mul_bound(den as int, den as int, 3 * s * s, 3 * s * s);
    }
    if den == 0 {
        return None;
    }
    if !(num * den * 1_000_000 > PLANE_EPSILON as i128 * (den * den)) {
        return None;
    }
    let (t, m) = if den > 0 {
        (num, den)
    } else {
        (-num, -den)
    };
    match point_along(start, direction, t, m) {
        None => None,
        Some(p) => Some(SurfacePoint { position: p, normal: plane.normal, color: plane.color }),
    }
}

/// The hit of the ray with one primitive.
pub fn intersect(start: &Vector, direction: &Vector, primitive: &Primitive) -> (r: Option<
    SurfacePoint,
>)
    requires
        valid_ray(start@, direction@),
        primitive.wf(),
    ensures
        hit_view(r) == primitive_hit(start@, direction@, *primitive),
{
    match primitive {
        Primitive::Sphere(s) => ray_sphere_intersection(start, direction, s),
        Primitive::Plane(p) => ray_plane_intersection(start, direction, p),
    }
}

/// The squared distance between `p` and `o`.
fn distance2(p: &Vector, o: &Vector) -> (r: u128)
    requires
        o@.within(COORD_LIMIT as int),
    ensures
        r == p@.sub(o@).norm2(),
{
    let dx = p.x as i128 - o.x as i128;
    let dy = p.y as i128 - o.y as i128;
    let dz = p.z as i128 - o.z as i128;
    proof {
        let k: int = 0x8000_0000_8000_0000;
        lemma_mul_bound(dx as int, dx as int, k, k);
        lemma_mul_bound(dy as int, dy as int, k, k);
        lemma_mul_bound(dz as int, dz as int, k, k);
        assert(0 <= dx * dx && 0 <= dy * dy && 0 <= dz * dz) by (nonlinear_arith);
    }
    (dx * dx) as u128 + (dy * dy) as u128 + (dz * dz) as u128
}

/// The nearest hit of the ray over the whole scene, by distance from the
/// origin, with the index of the primitive hit; the first of equally near
/// hits wins.
pub fn nearest_hit(scene: &Vec<Primitive>, start: &Vector, direction: &Vector) -> (r: Option<
    (usize, SurfacePoint),
>)
    requires
        valid_ray(start@, direction@),
        forall|i: int| 0 <= i < scene.len() ==> (#[trigger] scene[i]).wf(),
    ensures
        nearest_view(r) == nearest(scene@, start@, direction@),
{
    let ghost (o, d) = (start@, direction@);
    let mut best: Option<(usize, SurfacePoint)> = None;
    let mut best_d2: u128 = 0;
    let mut i: usize = 0;
    while i < scene.len()
        invariant
            i <= scene.len(),
            valid_ray(o, d),
            o == start@,
            d == direction@,
            forall|k: int| 0 <= k < scene.len() ==> (#[trigger] scene[k]).wf(),
            nearest_view(best) == nearest_among(scene@, o, d, i as nat),
            best matches Some(b) ==> best_d2 == b.1.position@.sub(o).norm2(),
        decreases scene.len() - i,
    {
        let hit = intersect(start, direction, &scene[i]);
        match hit {
            None => {},
            Some(h) => {
                let d2 = distance2(&h.position, start);
                match best {
                    None => {
                        best = Some((i, h));
                        best_d2 = d2;
                    },
                    Some(_) => {
                        if d2 < best_d2 {
                            best = Some((i, h));
                            best_d2 = d2;
                        }
                    },
                }
            },
        }
        i += 1;
    }
    best
}

/// A ray aimed at a sphere's center meets it at the center's distance minus
/// the radius (near root) and plus the radius (far root); the near root is the
/// hit when it lies ahead of the origin. Stated for a direction `d` of exact
/// length `m` and a center at `q` times `d` from the origin.
pub proof fn lemma_ray_through_center(o: Vec3, d: Vec3, s: Sphere, m: int, q: int)
    requires
        m > 0,
        q > 0,
        s.radius > 0,
        d.norm2() == m * m,
        s.center@.sub(o) == d.scale(q),
    ensures
        sqrt_floor(s.center@.sub(o).norm2() as nat) == q * m,
        sphere_discriminant(o, d, s) > 0,
        sphere_near_root(o, d, s) * m == (q * m - s.radius) * d.norm2(),
        sphere_far_root(o, d, s) * m == (q * m + s.radius) * d.norm2(),
        (q * m - s.radius) * SCALE > SPHERE_EPSILON * m ==> sphere_root(o, d, s) == Some(
            sphere_near_root(o, d, s),
        ),
{
    let c = s.center@;
    let v = o.sub(c);
    let r = s.radius as int;
    let a = d.norm2();
    let (dx, dy, dz) = (d.x, d.y, d.z);
    let (vx, vy, vz) = (v.x, v.y, v.z);
    assert(vx == -(q * dx) && vy == -(q * dy) && vz == -(q * dz));
    assert(c.sub(o).x == q * dx && c.sub(o).y == q * dy && c.sub(o).z == q * dz);
    let b = v.dot(d);
    let v2 = v.norm2();
    let c2 = c.sub(o).norm2();
    assert(b == -q * a) by (nonlinear_arith)
        requires
            vx == -(q * dx),
            vy == -(q * dy),
            vz == -(q * dz),
            a == dx * dx + dy * dy + dz * dz,
            b == vx * dx + vy * dy + vz * dz;
    assert(vx * vx == q * q * (dx * dx)) by (nonlinear_arith)
        requires vx == -(q * dx);
    assert(vy * vy == q * q * (dy * dy)) by (nonlinear_arith)
        requires vy == -(q * dy);
    assert(vz * vz == q * q * (dz * dz)) by (nonlinear_arith)
        requires vz == -(q * dz);
    assert(q * q * (dx * dx) + q * q * (dy * dy) + q * q * (dz * dz) == q * q * a)
        by (nonlinear_arith)
        requires a == dx * dx + dy * dy + dz * dz;
    assert(v2 == q * q * a);
    assert(c2 == q * q * a) by (nonlinear_arith)
        requires
            c2 == (q * dx) * (q * dx) + (q * dy) * (q * dy) + (q * dz) * (q * dz),
            a == dx * dx + dy * dy + dz * dz;
    let disc = sphere_discriminant(o, d, s);
    assert(disc == b * b - a * (v2 - r * r));
    assert(b * b == q * q * a * a) by (nonlinear_arith)
        requires b == -q * a;
    assert(a * (v2 - r * r) == q * q * a * a - a * (r * r)) by (nonlinear_arith)
        requires v2 == q * q * a;
    assert(a * (r * r) == (m * r) * (m * r)) by (nonlinear_arith)
        requires a == m * m;
    assert(disc == (m * r) * (m * r));
    assert((m * r) * (m * r) > 0) by (nonlinear_arith)
        requires m > 0, r > 0;
    lemma_sqrt_floor_square((m * r) as nat);
    lemma_sqrt_floor_square((q * m) as nat);
    assert((q * m) * (q * m) == q * q * a) by (nonlinear_arith)
        requires a == m * m;
    let root = sqrt_floor(sphere_discriminant(o, d, s) as nat) as int;
    assert(root == m * r);
    assert(sphere_near_root(o, d, s) * m == (q * m - r) * a) by (nonlinear_arith)
        requires sphere_near_root(o, d, s) == -b - root, b == -q * a, root == m * r, a == m * m;
    assert(sphere_far_root(o, d, s) * m == (q * m + r) * a) by (nonlinear_arith)
        requires sphere_far_root(o, d, s) == -b + root, b == -q * a, root == m * r, a == m * m;
    if (q * m - r) * SCALE > SPHERE_EPSILON * m {
        assert(sphere_near_root(o, d, s) * SCALE > SPHERE_EPSILON * a) by (nonlinear_arith)
            requires
                sphere_near_root(o, d, s) * m == (q * m - r) * a,
                (q * m - r) * SCALE > SPHERE_EPSILON * m,
                a == m * m,
                m > 0;
    }
}

/// A ray whose line passes the sphere's center farther off than its radius
/// misses the sphere.
pub proof fn lemma_ray_missing_sphere(o: Vec3, d: Vec3, s: Sphere)
    requires
        o.sub(s.center@).norm2() * d.norm2() - o.sub(s.center@).dot(d) * o.sub(s.center@).dot(d)
            > s.radius * s.radius * d.norm2(),
    ensures
        sphere_hit(o, d, s) is None,
{
    let v = o.sub(s.center@);
    let a = d.norm2();
    let r = s.radius as int;
    assert(sphere_discriminant(o, d, s) < 0) by (nonlinear_arith)
        requires
            sphere_discriminant(o, d, s) == v.dot(d) * v.dot(d) - a * (v.norm2() - r * r),
            v.norm2() * a - v.dot(d) * v.dot(d) > r * r * a;
}

/// A ray parallel to a plane misses it.
pub proof fn lemma_parallel_ray_misses_plane(o: Vec3, d: Vec3, pl: Plane)
    requires
        d.dot(pl.normal@) == 0,
    ensures
        plane_hit(o, d, pl) is None,
{
}

impl Primitive {
    pub open spec fn color(self) -> Rgb {
        match self {
            Primitive::Sphere(s) => s.color@,
            Primitive::Plane(p) => p.color@,
        }
    }
}

/// A hit point fits in a `Vector`, with a normal of length about
/// `SCALE` and the primitive's color.
pub proof fn lemma_primitive_hit(o: Vec3, d: Vec3, p: Primitive)
    requires
        p.wf(),
        primitive_hit(o, d, p) is Some,
    ensures
        ({
            let h = primitive_hit(o, d, p)->0;
            &&& h.position.fits_i64()
            &&& h.normal.within(SCALE as int)
            &&& h.color == p.color()
        }),
{
    match p {
        Primitive::Sphere(s) => {
            let t = sphere_root(o, d, s)->0;
            let q = ray_point(o, d, t, d.norm2());
            lemma_normalized_bounds(q.sub(s.center@));
        },
        Primitive::Plane(_) => {},
    }
}

/// The nearest hit is the hit of the primitive at its index.
pub proof fn lemma_nearest_among(scene: Seq<Primitive>, o: Vec3, d: Vec3, n: nat)
    requires
        n <= scene.len(),
    ensures
        nearest_among(scene, o, d, n) matches Some((i, h)) ==> 0 <= i < n && primitive_hit(
            o,
            d,
            scene[i],
        ) == Some(h),
    decreases n,
{
    if n > 0 {
        lemma_nearest_among(scene, o, d, (n - 1) as nat);
    }
}

fn within_limit(v: &Vector, k: i64) -> (r: bool)
    requires
        k >= 0,
    ensures
        r == v@.within(k as int),
{
    -k <= v.x && v.x <= k && -k <= v.y && v.y <= k && -k <= v.z && v.z <= k
}

fn color_within(c: &Color, k: u64) -> (r: bool)
    ensures
        r == c@.within(k as int),
{
    c.r <= k && c.g <= k && c.b <= k
}

impl Primitive {
    /// Whether the primitive is one that the tracer accepts.
    pub fn is_valid(&self) -> (r: bool)
        ensures
            r == self.wf(),
    {
        match self {
            Primitive::Sphere(s) => {
                within_limit(&s.center, COORD_LIMIT) && 0 < s.radius && s.radius <= COORD_LIMIT
                    && color_within(
                    &s.color,
                    if s.light {
                        COLOR_LIMIT
                    } else {
                        1_000_000
                    },
                )
            },
            Primitive::Plane(p) => {
                within_limit(&p.point, COORD_LIMIT) && within_limit(&p.normal, 1_000_000) && !(
                p.normal.x == 0 && p.normal.y == 0 && p.normal.z == 0) && color_within(
                    &p.color,
                    1_000_000,
                )
            },
        }
    }
}

/// The point `o + d * num / den` if a `Vector` can hold it.
fn point_along(o: &Vector, d: &Vector, num: i128, den: i128) -> (r: Option<Vector>)
    requires
        o@.within(COORD_LIMIT as int),
        d@.within(SCALE as int),
        -0x1_0000_0000_0000_0000_0000 <= num <= 0x1_0000_0000_0000_0000_0000,
        den > 0,
    ensures
        r matches Some(p) ==> p@ == ray_point(o@, d@, num as int, den as int),
        r is None <==> !ray_point(o@, d@, num as int, den as int).fits_i64(),
{
    proof {
        let bound: int = 0x1_0000_0000_0000_0000_0000int;
        lemma_mul_bound(d.x as int, num as int, SCALE as int, bound);
        lemma_mul_bound(d.y as int, num as int, SCALE as int, bound);
        lemma_mul_bound(d.z as int, num as int, SCALE as int, bound);
    }
    let qx = div_floor(d.x as i128 * num, den);
    let qy = div_floor(d.y as i128 * num, den);
    let qz = div_floor(d.z as i128 * num, den);
    proof {
        let k = SCALE as int * 0x1_0000_0000_0000_0000_0000int;
        vstd::arithmetic::div_mod::lemma_div_is_ordered(d.x * num, k, den as int);
        vstd::arithmetic::div_mod::lemma_div_is_ordered(-k, d.x * num, den as int);
        vstd::arithmetic::div_mod::lemma_div_is_ordered(d.y * num, k, den as int);
        vstd::arithmetic::div_mod::lemma_div_is_ordered(-k, d.y * num, den as int);
        vstd::arithmetic::div_mod::lemma_div_is_ordered(d.z * num, k, den as int);
        vstd::arithmetic::div_mod::lemma_div_is_ordered(-k, d.z * num, den as int);
        lemma_div_bounded(k, den as int);
    }
    let px = o.x as i128 + qx;
    let py = o.y as i128 + qy;
    let pz = o.z as i128 + qz;
    let (lo, hi) = (i64::MIN as i128, i64::MAX as i128);
    if lo <= px && px <= hi && lo <= py && py <= hi && lo <= pz && pz <= hi {
        Some(from_wide(px, py, pz))
    } else {
        None
    }
}

proof fn lemma_div_bounded(k: int, den: int)
    requires
        k >= 0,
        den > 0,
    ensures
        -k <= (-k) / den,
        k / den <= k,
{
    vstd::arithmetic::div_mod::lemma_div_is_ordered_by_denominator(k, 1, den);
    vstd::arithmetic::div_mod::lemma_fundamental_div_mod(-k, den);
    assert(-k <= (-k) / den) by (nonlinear_arith)
        requires
            den > 0,
            k >= 0,
            (-k) == den * ((-k) / den) + (-k) % den,
            0 <= (-k) % den < den,
    ;
}

} // verus!
