use vstd::prelude::*;
use crate::accumulator::{lemma_pixel_coords, ConfigError, MAX_PIXELS};
use crate::color::{Color, Rgb, COLOR_LIMIT};
use crate::integrator::{first_light, possible_pixel, render_pixel, scene_wf};
use crate::scene::{nearest, valid_direction, Primitive, COORD_LIMIT};
use crate::vector::{lemma_normalized_bounds, Vec3, Vector};

verus! {

/// A vector along the primary ray through pixel `(x, y)` of a
/// `width × height` image, for a camera looking down `+z` whose view is one
/// unit wide at distance one: `(x / width - 1/2, y / width - height / (2 width), 1)`,
/// times `2 width`.
pub open spec fn camera_vector(x: int, y: int, width: int, height: int) -> Vec3 {
    Vec3 { x: 2 * x - width, y: 2 * y - height, z: 2 * width }
}

/// The direction of the primary ray of pixel `p = x * height + y`.
pub open spec fn pixel_direction(p: int, width: int, height: int) -> Vec3 {
    camera_vector(p / height, p % height, width, height).normalized()
}

/// The unit direction of the primary ray through pixel `(x, y)`.
pub fn primary_direction(x: usize, y: usize, width: usize, height: usize) -> (d: Vector)
    requires
        x < width,
        y < height,
        width * height <= MAX_PIXELS,
    ensures
        d@ == camera_vector(x as int, y as int, width as int, height as int).normalized(),
        valid_direction(d@),
{
    proof {
        assert(width <= MAX_PIXELS && height <= MAX_PIXELS) by (nonlinear_arith)
            requires width * height <= MAX_PIXELS, x < width, y < height;
    }
    let v = Vector {
        x: 2 * x as i64 - width as i64,
        y: 2 * y as i64 - height as i64,
        z: 2 * width as i64,
    };
    proof {
        lemma_normalized_bounds(v@);
    }
    v.normalize()
}

/// One pass over a `width × height` image seen from `camera`: the mean of
/// `samples_per_pixel` estimates for each pixel (see `render_pixel`), pixel
/// `x * height + y` at that index. A pixel whose ray hits nothing is black; one whose ray first
/// hits a light shows that light's emission.
pub fn render_pass(
    scene: &Vec<Primitive>,
    camera: &Vector,
    width: usize,
    height: usize,
    samples_per_pixel: u32,
    max_bounces: u32,
) -> (r: Vec<Color>)
    requires
        scene_wf(scene@),
        camera@.within(COORD_LIMIT as int),
        0 < width * height <= MAX_PIXELS,
        samples_per_pixel > 0,
    ensures
        r.len() == width * height,
        forall|p: int| 0 <= p < r.len() ==> (#[trigger] r[p])@.within(COLOR_LIMIT as int),
        forall|p: int|
            0 <= p < r.len() ==> possible_pixel(
                scene@,
                camera@,
                pixel_direction(p, width as int, height as int),
                samples_per_pixel as nat,
                max_bounces as nat,
                (#[trigger] r[p])@,
            ),
        forall|p: int|
            0 <= p < r.len() && nearest(
                scene@,
                camera@,
                pixel_direction(p, width as int, height as int),
            ) is None ==> (#[trigger] r[p])@ == Rgb::black(),
        forall|p: int|
            0 <= p < r.len() && first_light(
                scene@,
                camera@,
                pixel_direction(p, width as int, height as int),
            ) is Some ==> (#[trigger] r[p])@ == first_light(
                scene@,
                camera@,
                pixel_direction(p, width as int, height as int),
            )->0,
{
    let n = width * height;
    let mut out: Vec<Color> = Vec::new();
    let mut p: usize = 0;
    while p < n
        invariant
            scene_wf(scene@),
            camera@.within(COORD_LIMIT as int),
            0 < n <= MAX_PIXELS,
            n == width * height,
            samples_per_pixel > 0,
            p <= n,
            out.len() == p,
            forall|q: int| 0 <= q < out.len() ==> (#[trigger] out[q])@.within(COLOR_LIMIT as int),
            forall|q: int|
                0 <= q < out.len() ==> possible_pixel(
                    scene@,
                    camera@,
                    pixel_direction(q, width as int, height as int),
                    samples_per_pixel as nat,
                    max_bounces as nat,
                    (#[trigger] out[q])@,
                ),
            forall|q: int|
                0 <= q < out.len() && nearest(
                    scene@,
                    camera@,
                    pixel_direction(q, width as int, height as int),
                ) is None ==> (#[trigger] out[q])@ == Rgb::black(),
            forall|q: int|
                0 <= q < out.len() && first_light(
                    scene@,
                    camera@,
                    pixel_direction(q, width as int, height as int),
                ) is Some ==> (#[trigger] out[q])@ == first_light(
                    scene@,
                    camera@,
                    pixel_direction(q, width as int, height as int),
                )->0,
        decreases n - p,
    {
        let x = p / height;
        let y = p % height;
        proof {
            lemma_pixel_coords(p as int, width as int, height as int);
        }
        let d = primary_direction(x, y, width, height);
        proof {
            assert(d@ == pixel_direction(p as int, width as int, height as int));
        }
        let c = render_pixel(scene, camera, &d, samples_per_pixel, max_bounces);
        out.push(c);
        p += 1;
    }
    out
}

/// Whether a render of a `width × height` image with `samples_per_pixel`
/// samples per pixel can start on `scene`, or the first reason why not.
pub fn check_config(width: usize, height: usize, samples_per_pixel: u32, scene: &Vec<Primitive>) -> (r:
    Result<(), ConfigError>)
    ensures
        r == Err::<(), ConfigError>(ConfigError::EmptyImage) <==> width == 0 || height == 0,
        r == Err::<(), ConfigError>(ConfigError::ImageTooLarge) <==> width > 0 && height > 0
            && width * height > MAX_PIXELS,
        r == Err::<(), ConfigError>(ConfigError::NoSamples) <==> 0 < width * height <= MAX_PIXELS
            && samples_per_pixel == 0,
        r == Err::<(), ConfigError>(ConfigError::InvalidPrimitive) <==> 0 < width * height
            <= MAX_PIXELS && samples_per_pixel > 0 && !scene_wf(scene@),
        r is Ok <==> 0 < width * height <= MAX_PIXELS && samples_per_pixel > 0 && scene_wf(
            scene@,
        ),
{
    if width == 0 || height == 0 {
        return Err(ConfigError::EmptyImage);
    }
    proof {
        assert(0 < width * height) by (nonlinear_arith)
            requires width > 0, height > 0;
        assert(width as u128 * height as u128 <= 0xffff_ffff_ffff_ffffu128
            * 0xffff_ffff_ffff_ffffu128) by (nonlinear_arith)
            requires width <= 0xffff_ffff_ffff_ffffu128, height <= 0xffff_ffff_ffff_ffffu128;
    }
    if width as u128 * height as u128 > MAX_PIXELS as u128 {
        return Err(ConfigError::ImageTooLarge);
    }
    if samples_per_pixel == 0 {
        return Err(ConfigError::NoSamples);
    }
    let mut i: usize = 0;
    while i < scene.len()
        invariant
            i <= scene.len(),
            width > 0,
            height > 0,
            0 < width * height <= MAX_PIXELS,
            samples_per_pixel > 0,
            forall|k: int| 0 <= k < i ==> (#[trigger] scene[k]).wf(),
        decreases scene.len() - i,
    {
        if !scene[i].is_valid() {
            return Err(ConfigError::InvalidPrimitive);
        }
        i += 1;
    }
    Ok(())
}

} // verus!
