use vstd::prelude::*;
use crate::color::{lemma_attenuate_bound, Color, Rgb, COLOR_LIMIT};
use crate::scene::{
    lemma_nearest_among, lemma_primitive_hit, nearest, nearest_hit, valid_direction, valid_ray,
    Primitive,
    COORD_LIMIT,
};
use crate::vector::{
    div_floor, from_wide, isqrt, lemma_mul_bound, lemma_normalized_bounds, sqrt_floor, Vec3,
    Vector, SCALE,
};

verus! {

/// The random draws of one bounce: a seed for the tangent frame and a point
/// of the unit disk, both in fixed point.
#[derive(Clone, Copy, Debug, PartialEq, Eq, Structural)]
pub struct BounceSample {
    pub seed: Vector,
    pub disk_x: i64,
    pub disk_y: i64,
}

impl BounceSample {
    pub open spec fn wf(self) -> bool {
        &&& self.seed@.within(SCALE as int)
        &&& -SCALE <= self.disk_x <= SCALE
        &&& -SCALE <= self.disk_y <= SCALE
        &&& self.disk_x * self.disk_x + self.disk_y * self.disk_y <= SCALE * SCALE
    }
}

pub open spec fn samples_wf(samples: Seq<BounceSample>) -> bool {
    forall|i: int| 0 <= i < samples.len() ==> (#[trigger] samples[i]).wf()
}

pub open spec fn scene_wf(scene: Seq<Primitive>) -> bool {
    forall|i: int| 0 <= i < scene.len() ==> (#[trigger] scene[i]).wf()
}

/// The direction in which a ray leaves a diffuse surface of normal `n`: the
/// disk point lifted onto the hemisphere around `n` (cosine-weighted), in the
/// frame of the tangent `seed × n`. A seed parallel to `n` gives none.
pub open spec fn bounce_direction(n: Vec3, s: BounceSample) -> Option<Vec3> {
    let t0 = s.seed@.cross(n);
    if t0.is_zero() {
        None
    } else {
        let u = t0.normalized();
        let w = n.cross(u);
        let (x, y) = (s.disk_x as int, s.disk_y as int);
        let z = sqrt_floor((SCALE * SCALE - x * x - y * y) as nat) as int;
        let dir = Vec3 {
            x: u.x * x + w.x * y / SCALE as int + n.x * z,
            y: u.y * x + w.y * y / SCALE as int + n.y * z,
            z: u.z * x + w.z * y / SCALE as int + n.z * z,
        };
        if dir.is_zero() {
            None
        } else {
            Some(dir.normalized())
        }
    }
}

/// The light that arrives along the ray `o + t d`, bounce `depth` of at most
/// `max_bounces`, with `samples[k]` the draws of bounce `k`. A ray starts only
/// from a point within `COORD_LIMIT` of the origin (the bound under which the
/// intersection arithmetic fits in `i128`), so a diffuse hit beyond it ends
/// the path, black.
pub open spec fn radiance(
    scene: Seq<Primitive>,
    o: Vec3,
    d: Vec3,
    depth: nat,
    max_bounces: nat,
    samples: Seq<BounceSample>,
) -> Rgb
    decreases max_bounces + 1 - depth,
{
    if depth > max_bounces {
        Rgb::black()
    } else {
        match nearest(scene, o, d) {
            None => Rgb::black(),
            Some((i, h)) => if scene[i].is_light() {
                h.color
            } else if !h.position.within(COORD_LIMIT as int) {
                Rgb::black()
            } else {
                match bounce_direction(h.normal, samples[depth as int]) {
                    None => Rgb::black(),
                    Some(nd) => h.color.attenuate(
                        radiance(scene, h.position, nd, depth + 1, max_bounces, samples),
                    ),
                }
            },
        }
    }
}

/// `x` seen through the albedos of `albedos`, the last one applied first.
pub open spec fn through(albedos: Seq<Rgb>, x: Rgb) -> Rgb
    decreases albedos.len(),
{
    if albedos.len() == 0 {
        x
    } else {
        through(albedos.drop_last(), albedos.last().attenuate(x))
    }
}

/// The direction of the bounce off a surface of normal `normal`.
pub fn bounce_direction_of(normal: &Vector, sample: &BounceSample) -> (r: Option<Vector>)
    requires
        normal@.within(SCALE as int),
        sample.wf(),
    ensures
        r matches Some(v) ==> bounce_direction(normal@, *sample) == Some(v@) && valid_direction(
            v@,
        ),
        r is None ==> bounce_direction(normal@, *sample) is None,
{
    let ghost s = SCALE as int;
    proof {
        lemma_cross_bounds(sample.seed@, normal@);
    }
    let t0 = sample.seed.cross(normal);
    if t0.x == 0 && t0.y == 0 && t0.z == 0 {
        return None;
    }
    let u = t0.normalize();
    proof {
        lemma_normalized_bounds(t0@);
        lemma_cross_bounds(normal@, u@);
    }
    let w = normal.cross(&u);
    let (x, y) = (sample.disk_x as i128, sample.disk_y as i128);
    proof {
        assert(0 <= x * x && 0 <= y * y) by (nonlinear_arith);
    }
    let zz: i128 = 1_000_000_000_000 - x * x - y * y;
    let z = isqrt(zz as u128) as i128;
    proof {
        crate::vector::lemma_sqrt_floor_monotone(zz as nat, (s * s) as nat);
        crate::vector::lemma_sqrt_floor_square(s as nat);
        lemma_mul_bound(u.x as int, x as int, s, s);
        lemma_mul_bound(u.y as int, x as int, s, s);
        lemma_mul_bound(u.z as int, x as int, s, s);
        lemma_mul_bound(w.x as int, y as int, 2 * s * s, s);
        lemma_mul_bound(w.y as int, y as int, 2 * s * s, s);
        lemma_mul_bound(w.z as int, y as int, 2 * s * s, s);
        lemma_mul_bound(normal.x as int, z as int, s, s);
        lemma_mul_bound(normal.y as int, z as int, s, s);
        lemma_mul_bound(normal.z as int, z as int, s, s);
        lemma_div_scale_bound(w.x * y);
        lemma_div_scale_bound(w.y * y);
        lemma_div_scale_bound(w.z * y);
    }
    let dx = u.x as i128 * x + div_floor(w.x as i128 * y, 1_000_000) + normal.x as i128 * z;
    let dy = u.y as i128 * x + div_floor(w.y as i128 * y, 1_000_000) + normal.y as i128 * z;
    let dz = u.z as i128 * x + div_floor(w.z as i128 * y, 1_000_000) + normal.z as i128 * z;
    if dx == 0 && dy == 0 && dz == 0 {
        return None;
    }
    let dir = from_wide(dx, dy, dz);
    proof {
        lemma_normalized_bounds(dir@);
    }
    Some(dir.normalize())
}

proof fn lemma_through_push(albedos: Seq<Rgb>, a: Rgb, x: Rgb)
    ensures
        through(albedos.push(a), x) == through(albedos, a.attenuate(x)),
{
    assert(albedos.push(a).drop_last() =~= albedos);
}

/// The light that arrives along the ray, following at most `max_bounces`
/// diffuse bounces, with `samples[k]` the draws of bounce `k`.
pub fn trace_path(
    scene: &Vec<Primitive>,
    origin: &Vector,
    direction: &Vector,
    max_bounces: u32,
    samples: &Vec<BounceSample>,
) -> (c: Color)
    requires
        valid_ray(origin@, direction@),
        scene_wf(scene@),
        samples.len() > max_bounces,
        samples_wf(samples@),
    ensures
        c@ == radiance(scene@, origin@, direction@, 0, max_bounces as nat, samples@),
        c@.within(COLOR_LIMIT as int),
{
    let ghost total = radiance(scene@, origin@, direction@, 0, max_bounces as nat, samples@);
    let ghost mut alb: Seq<Rgb> = Seq::empty();
    let mut albedos: Vec<Color> = Vec::new();
    let mut o = *origin;
    let mut d = *direction;
    let mut depth: usize = 0;
    let mut tail = Color::black();
    let mut done = false;
    let max = max_bounces as usize;
    while !done && depth <= max
        invariant
            depth <= max + 1,
            max == max_bounces,
            samples.len() > max,
            scene_wf(scene@),
            samples_wf(samples@),
            albedos.len() == depth,
            alb.len() == depth,
            forall|k: int| 0 <= k < depth ==> alb[k] == (#[trigger] albedos[k])@,
            forall|k: int| 0 <= k < depth ==> (#[trigger] alb[k]).within(SCALE as int),
            tail@.within(COLOR_LIMIT as int),
            !done ==> valid_ray(o@, d@),
            !done ==> tail@ == Rgb::black(),
            done ==> total == through(alb, tail@),
            !done ==> total == through(
                alb,
                radiance(scene@, o@, d@, depth as nat, max as nat, samples@),
            ),
        decreases 2 * (max + 1 - depth) + (if done {
            0int
        } else {
            1int
        }),
    {
        match nearest_hit(scene, &o, &d) {
            None => {
                done = true;
            },
            Some((i, h)) => {
                proof {
                    lemma_nearest_among(scene@, o@, d@, scene@.len());
                    lemma_primitive_hit(o@, d@, scene@[i as int]);
                }
                let light = match &scene[i] {
                    Primitive::Sphere(s) => s.light,
                    Primitive::Plane(_) => false,
                };
                let lim = COORD_LIMIT;
                let p = h.position;
                if light {
                    tail = h.color;
                    done = true;
                } else if !(-lim <= p.x && p.x <= lim && -lim <= p.y && p.y <= lim && -lim <= p.z
                    && p.z <= lim) {
                    done = true;
                } else {
                    match bounce_direction_of(&h.normal, &samples[depth]) {
                        None => {
                            done = true;
                        },
                        Some(nd) => {
                            proof {
                                lemma_through_push(
                                    alb,
                                    h.color@,
                                    radiance(
                                        scene@,
                                        h.position@,
                                        nd@,
                                        (depth + 1) as nat,
                                        max as nat,
                                        samples@,
                                    ),
                                );
                                alb = alb.push(h.color@);
                            }
                            albedos.push(h.color);
                            o = h.position;
                            d = nd;
                            depth += 1;
                        },
                    }
                }
            },
        }
    }
    let mut acc = tail;
    let mut k = albedos.len();
    proof {
        assert(alb.take(k as int) =~= alb);
    }
    while k > 0
        invariant
            k <= albedos.len(),
            alb.len() == albedos.len(),
            forall|j: int| 0 <= j < albedos.len() ==> alb[j] == (#[trigger] albedos[j])@,
            forall|j: int| 0 <= j < albedos.len() ==> (#[trigger] alb[j]).within(SCALE as int),
            total == through(alb.take(k as int), acc@),
            acc@.within(COLOR_LIMIT as int),
        decreases k,
    {
        proof {
            assert(alb[k - 1] == albedos[k - 1]@);
            lemma_attenuate_bound(alb[k - 1], acc@, COLOR_LIMIT as int);
            assert(alb.take(k as int).drop_last() =~= alb.take(k - 1));
        }
        acc = albedos[k - 1].attenuate(&acc);
        k -= 1;
    }
    proof {
        assert(alb.take(0) =~= Seq::<Rgb>::empty());
    }
    acc
}

/// Relies on `rand::random::<u64>`: a draw from the thread-local generator,
/// which may be any value.
#[verifier::external_body]
fn random_u64() -> u64 {
    rand::random::<u64>()
}

/// A random draw in `0..bound`.
fn random_below(bound: u64) -> (r: u64)
    requires
        bound > 0,
    ensures
        r < bound,
{
    random_u64() % bound
}

/// Fresh draws for one bounce: a seed in the positive octant, and a point of
/// the unit disk by rejection from its square (the disk's center after 64
/// rejections in a row).
pub fn draw_sample() -> (s: BounceSample)
    ensures
        s.wf(),
{
    let seed = Vector {
        x: random_below(1_000_000) as i64,
        y: random_below(1_000_000) as i64,
        z: random_below(1_000_000) as i64,
    };
    let mut x: i64 = 0;
    let mut y: i64 = 0;
    let mut tries: u32 = 0;
    while tries < 64
        invariant
            -SCALE <= x <= SCALE,
            -SCALE <= y <= SCALE,
            x * x + y * y <= SCALE * SCALE,
        decreases 64 - tries,
    {
        let cx = random_below(2_000_001) as i64 - 1_000_000;
        let cy = random_below(2_000_001) as i64 - 1_000_000;
        proof {
            lemma_mul_bound(cx as int, cx as int, SCALE as int, SCALE as int);
            lemma_mul_bound(cy as int, cy as int, SCALE as int, SCALE as int);
        }
        if cx * cx + cy * cy <= 1_000_000_000_000 {
            x = cx;
            y = cy;
            tries = 64;
        } else {
            tries += 1;
        }
    }
    BounceSample { seed, disk_x: x, disk_y: y }
}

/// The emission of the primitive that the ray hits first, if it is a light.
pub open spec fn first_light(scene: Seq<Primitive>, o: Vec3, d: Vec3) -> Option<Rgb> {
    match nearest(scene, o, d) {
        Some((i, h)) => if scene[i].is_light() {
            Some(h.color)
        } else {
            None
        },
        None => None,
    }
}

/// What `shoot_ray` may return: the radiance for some well-formed draws.
pub open spec fn possible_radiance(
    scene: Seq<Primitive>,
    o: Vec3,
    d: Vec3,
    max_bounces: nat,
    c: Rgb,
) -> bool {
    exists|s: Seq<BounceSample>|
        s.len() == max_bounces + 1 && samples_wf(s) && c == #[trigger] radiance(
            scene,
            o,
            d,
            0,
            max_bounces,
            s,
        )
}

/// One stochastic estimate of the light along the ray, with fresh draws for
/// each bounce. A ray that hits nothing is black; one whose first hit is a
/// light gets the light's emission, whatever the draws.
pub fn shoot_ray(scene: &Vec<Primitive>, origin: &Vector, direction: &Vector, max_bounces: u32) -> (c:
    Color)
    requires
        valid_ray(origin@, direction@),
        scene_wf(scene@),
    ensures
        possible_radiance(scene@, origin@, direction@, max_bounces as nat, c@),
        c@.within(COLOR_LIMIT as int),
        nearest(scene@, origin@, direction@) is None ==> c@ == Rgb::black(),
        first_light(scene@, origin@, direction@) matches Some(e) ==> c@ == e,
{
    let mut samples: Vec<BounceSample> = Vec::new();
    while samples.len() <= max_bounces as usize
        invariant
            samples.len() <= max_bounces + 1,
            samples_wf(samples@),
        decreases max_bounces + 1 - samples.len(),
    {
        let s = draw_sample();
        samples.push(s);
    }
    let c = trace_path(scene, origin, direction, max_bounces, &samples);
    proof {
        assert(c@ == radiance(scene@, origin@, direction@, 0, max_bounces as nat, samples@));
    }
    c
}

/// A ray whose first hit is a light carries exactly that light's emission,
/// whatever the bounce limit and the draws.
pub proof fn lemma_light_on_first_hit(
    scene: Seq<Primitive>,
    o: Vec3,
    d: Vec3,
    max_bounces: nat,
    samples: Seq<BounceSample>,
)
    requires
        first_light(scene, o, d) is Some,
    ensures
        radiance(scene, o, d, 0, max_bounces, samples) == first_light(scene, o, d)->0,
{
}

/// In an empty scene every ray is black, at every depth and for all draws.
pub proof fn lemma_empty_scene_is_black(
    o: Vec3,
    d: Vec3,
    depth: nat,
    max_bounces: nat,
    samples: Seq<BounceSample>,
)
    ensures
        radiance(Seq::empty(), o, d, depth, max_bounces, samples) == Rgb::black(),
{
}

/// The sum of the colors, channel by channel.
pub open spec fn sum_colors(cs: Seq<Rgb>) -> Rgb
    decreases cs.len(),
{
    if cs.len() == 0 {
        Rgb::black()
    } else {
        let s = sum_colors(cs.drop_last());
        Rgb { r: s.r + cs.last().r, g: s.g + cs.last().g, b: s.b + cs.last().b }
    }
}

/// The mean of the colors, each channel rounded down.
pub open spec fn average(cs: Seq<Rgb>) -> Rgb {
    let s = sum_colors(cs);
    Rgb { r: s.r / cs.len() as int, g: s.g / cs.len() as int, b: s.b / cs.len() as int }
}

/// What `render_pixel` may return: the mean of `samples_per_pixel` values
/// that `shoot_ray` may return.
pub open spec fn possible_pixel(
    scene: Seq<Primitive>,
    o: Vec3,
    d: Vec3,
    samples_per_pixel: nat,
    max_bounces: nat,
    c: Rgb,
) -> bool {
    exists|cs: Seq<Rgb>|
        cs.len() == samples_per_pixel && c == #[trigger] average(cs) && forall|i: int|
            0 <= i < cs.len() ==> possible_radiance(scene, o, d, max_bounces, #[trigger] cs[i])
}

/// The mean of `samples_per_pixel` estimates of the light along the ray.
/// A ray that hits nothing is black, one whose first hit is a light gets the
/// light's emission, with no variance between estimates.
pub fn render_pixel(
    scene: &Vec<Primitive>,
    origin: &Vector,
    direction: &Vector,
    samples_per_pixel: u32,
    max_bounces: u32,
) -> (c: Color)
    requires
        valid_ray(origin@, direction@),
        scene_wf(scene@),
        samples_per_pixel > 0,
    ensures
        possible_pixel(scene@, origin@, direction@, samples_per_pixel as nat, max_bounces as nat, c@),
        c@.within(COLOR_LIMIT as int),
        nearest(scene@, origin@, direction@) is None ==> c@ == Rgb::black(),
        first_light(scene@, origin@, direction@) matches Some(e) ==> c@ == e,
{
    let ghost mut cs: Seq<Rgb> = Seq::empty();
    let ghost lim = COLOR_LIMIT as int;
    let (mut sr, mut sg, mut sb): (u128, u128, u128) = (0, 0, 0);
    let mut k: u32 = 0;
    while k < samples_per_pixel
        invariant
            valid_ray(origin@, direction@),
            scene_wf(scene@),
            k <= samples_per_pixel,
            cs.len() == k,
            sum_colors(cs) == (Rgb { r: sr as int, g: sg as int, b: sb as int }),
            sr <= k * 0x100_0000_0000,
            sg <= k * 0x100_0000_0000,
            sb <= k * 0x100_0000_0000,
            forall|i: int|
                0 <= i < cs.len() ==> possible_radiance(
                    scene@,
                    origin@,
                    direction@,
                    max_bounces as nat,
                    #[trigger] cs[i],
                ),
            nearest(scene@, origin@, direction@) is None ==> sr == 0 && sg == 0 && sb == 0,
            first_light(scene@, origin@, direction@) matches Some(e) ==> sr == k * e.r && sg == k
                * e.g && sb == k * e.b,
        decreases samples_per_pixel - k,
    {
        let c = shoot_ray(scene, origin, direction, max_bounces);
        proof {
            assert(cs.push(c@).drop_last() =~= cs);
            if first_light(scene@, origin@, direction@) is Some {
                let e = first_light(scene@, origin@, direction@)->0;
                assert((k + 1) * e.r == k * e.r + e.r && (k + 1) * e.g == k * e.g + e.g && (k + 1)
                    * e.b == k * e.b + e.b) by (nonlinear_arith);
            }
        }
        sr = sr + c.r as u128;
        sg = sg + c.g as u128;
        sb = sb + c.b as u128;
        k = k + 1;
        proof {
            cs = cs.push(c@);
        }
    }
    let n = samples_per_pixel as u128;
    proof {
        let m = samples_per_pixel as int;
        vstd::arithmetic::div_mod::lemma_div_is_ordered(sr as int, m * lim, m);
        vstd::arithmetic::div_mod::lemma_div_is_ordered(sg as int, m * lim, m);
        vstd::arithmetic::div_mod::lemma_div_is_ordered(sb as int, m * lim, m);
        vstd::arithmetic::div_mod::lemma_div_multiples_vanish(lim, m);
        if first_light(scene@, origin@, direction@) is Some {
            let e = first_light(scene@, origin@, direction@)->0;
            vstd::arithmetic::div_mod::lemma_div_multiples_vanish(e.r, m);
            vstd::arithmetic::div_mod::lemma_div_multiples_vanish(e.g, m);
            vstd::arithmetic::div_mod::lemma_div_multiples_vanish(e.b, m);
        }
    }
    let c = Color { r: (sr / n) as u64, g: (sg / n) as u64, b: (sb / n) as u64 };
    proof {
        assert(c@ == average(cs));
    }
    c
}

proof fn lemma_cross_bounds(a: Vec3, b: Vec3)
    requires
        a.within(SCALE as int),
        b.within(SCALE as int),
    ensures
        a.cross(b).within(2 * SCALE * SCALE),
{
    let s = SCALE as int;
    lemma_mul_bound(a.x, b.y, s, s);
    lemma_mul_bound(a.y, b.x, s, s);
    lemma_mul_bound(a.x, b.z, s, s);
    lemma_mul_bound(a.z, b.x, s, s);
    lemma_mul_bound(a.y, b.z, s, s);
    lemma_mul_bound(a.z, b.y, s, s);
}

proof fn lemma_div_scale_bound(p: int)
    requires
        -(2 * SCALE * SCALE * SCALE) <= p <= 2 * SCALE * SCALE * SCALE,
    ensures
        -(2 * SCALE * SCALE) <= p / SCALE as int <= 2 * SCALE * SCALE,
{
    let s = SCALE as int;
    vstd::arithmetic::div_mod::lemma_fundamental_div_mod(p, s);
    assert(-(2 * s * s) <= p / s <= 2 * s * s) by (nonlinear_arith)
        requires
            p == s * (p / s) + p % s,
            0 <= p % s < s,
            s > 0,
            -(2 * s * s * s) <= p <= 2 * s * s * s;
}

} // verus!
