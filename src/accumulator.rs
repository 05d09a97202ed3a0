use vstd::prelude::*;
use crate::color::{Color, Rgb, COLOR_LIMIT};
use crate::grid::{grid_cells, grid_extents, grid_get, grid_new, grid_set, Grid};
use crate::integrator::{average, sum_colors};
use crate::vector::SCALE;

verus! {

/// Largest number of pixels of an image.
pub const MAX_PIXELS: usize = 0x100_0000;

/// Why a render cannot start.
#[derive(Clone, Copy, Debug, PartialEq, Eq, Structural)]
pub enum ConfigError {
    /// The image has no pixels.
    EmptyImage,
    /// The image has more than `MAX_PIXELS` pixels.
    ImageTooLarge,
    /// No samples per pixel.
    NoSamples,
    /// A primitive is out of bounds or degenerate.
    InvalidPrimitive,
}

pub open spec fn spec_clamp(value: int, min: int, max: int) -> int {
    if value > max {
        max
    } else if value < min {
        min
    } else {
        value
    }
}

/// `value` brought into `min..=max`.
pub fn clamp(value: u128, min: u128, max: u128) -> (r: u128)
    requires
        min <= max,
    ensures
        r == spec_clamp(value as int, min as int, max as int),
{
    if value > max {
        max
    } else if value < min {
        min
    } else {
        value
    }
}

/// One channel of a color: 0 is red, 1 green, 2 blue.
pub open spec fn channel(c: Rgb, k: int) -> int {
    if k == 0 {
        c.r
    } else if k == 1 {
        c.g
    } else {
        c.b
    }
}

/// The byte shown for a channel whose running sum over `passes` passes is
/// `sum`: the mean, at 255 for an intensity of one, clamped to 255.
pub open spec fn display_value(sum: int, passes: int) -> int {
    spec_clamp((sum / passes) * 255 / SCALE as int, 0, 255)
}

/// Running per-pixel sums of the passes of a progressive render. Pixel
/// `p = x * height + y` has its red, green and blue sums at `3 p`, `3 p + 1`
/// and `3 p + 2`.
pub struct Accumulator {
    grid: Grid,
    width: usize,
    height: usize,
    passes: u64,
}

impl Accumulator {
    pub closed spec fn spec_width(&self) -> nat {
        self.width as nat
    }

    pub closed spec fn spec_height(&self) -> nat {
        self.height as nat
    }

    /// The number of passes added so far.
    pub closed spec fn spec_passes(&self) -> nat {
        self.passes as nat
    }

    /// The running sums, three per pixel.
    pub closed spec fn sums(&self) -> Seq<u128> {
        grid_cells(self.grid)
    }

    pub closed spec fn wf(&self) -> bool {
        &&& grid_extents(self.grid) == seq![self.width as nat, self.height as nat, 3nat]
        &&& grid_cells(self.grid).len() == self.width * self.height * 3
        &&& 0 < self.width * self.height <= MAX_PIXELS
        &&& forall|i: int|
            0 <= i < grid_cells(self.grid).len() ==> #[trigger] grid_cells(self.grid)[i]
                <= self.passes * 0x100_0000_0000
    }

    /// An accumulator with no pass yet, or why the image size is refused.
    pub fn new(width: usize, height: usize) -> (r: Result<Accumulator, ConfigError>)
        ensures
            r == Err::<Accumulator, ConfigError>(ConfigError::EmptyImage) <==> width == 0 || height
                == 0,
            r == Err::<Accumulator, ConfigError>(ConfigError::ImageTooLarge) <==> width > 0
                && height > 0 && width * height > MAX_PIXELS,
            r is Ok <==> 0 < width * height <= MAX_PIXELS,
            r is Ok ==> r->Ok_0.wf() && r->Ok_0.spec_width() == width && r->Ok_0.spec_height()
                == height && r->Ok_0.spec_passes() == 0 && r->Ok_0.sums().len() == width * height
                * 3 && forall|i: int| 0 <= i < width * height * 3 ==> #[trigger] r->Ok_0.sums()[i]
                == 0,
    {
        if width == 0 || height == 0 {
            return Err(ConfigError::EmptyImage);
        }
        proof {
            assert(width as u128 * height as u128 <= 0xffff_ffff_ffff_ffffu128
                * 0xffff_ffff_ffff_ffffu128) by (nonlinear_arith)
                requires width <= 0xffff_ffff_ffff_ffffu128, height <= 0xffff_ffff_ffff_ffffu128;
        }
        if width as u128 * height as u128 > MAX_PIXELS as u128 {
            return Err(ConfigError::ImageTooLarge);
        }
        let grid = grid_new(width, height);
        let acc = Accumulator { grid, width, height, passes: 0 };
        proof {
            assert(acc.sums().len() == width * height * 3);
            assert(0 < width * height) by (nonlinear_arith)
                requires width > 0, height > 0;
            assert(acc.wf());
            assert(forall|i: int| 0 <= i < width * height * 3 ==> #[trigger] acc.sums()[i] == 0);
            assert forall|i: int| 0 <= i < grid_cells(acc.grid).len() implies #[trigger] grid_cells(
                acc.grid,
            )[i] <= acc.passes * 0x100_0000_0000 by {
                assert(grid_cells(acc.grid)[i] == 0);
            }
        }
        Ok(acc)
    }

    pub fn width(&self) -> (r: usize)
        ensures
            r == self.spec_width(),
    {
        self.width
    }

    pub fn height(&self) -> (r: usize)
        ensures
            r == self.spec_height(),
    {
        self.height
    }

    pub fn passes(&self) -> (r: u64)
        ensures
            r == self.spec_passes(),
    {
        self.passes
    }

    /// Adds a pass: `pass[p]` is the mean of pixel `p`'s samples in it.
    pub fn add_pass(&mut self, pass: &Vec<Color>)
        requires
            old(self).wf(),
            pass.len() == old(self).spec_width() * old(self).spec_height(),
            forall|p: int| 0 <= p < pass.len() ==> (#[trigger] pass[p])@.within(COLOR_LIMIT as int),
            old(self).spec_passes() < u64::MAX,
        ensures
            final(self).wf(),
            final(self).spec_width() == old(self).spec_width(),
            final(self).spec_height() == old(self).spec_height(),
            final(self).spec_passes() == old(self).spec_passes() + 1,
            final(self).sums().len() == old(self).sums().len(),
            forall|i: int|
                0 <= i < final(self).sums().len() ==> #[trigger] final(self).sums()[i] == old(
                    self,
                ).sums()[i] + channel(pass[i / 3]@, i % 3),
    {
        let ghost start = grid_cells(self.grid);
        let n = self.width * self.height;
        let mut p: usize = 0;
        while p < n
            invariant
                n == self.width * self.height,
                0 < n <= MAX_PIXELS,
                pass.len() == n,
                p <= n,
                self.passes == old(self).passes,
                self.passes < u64::MAX,
                self.width == old(self).width,
                self.height == old(self).height,
                grid_extents(self.grid) == seq![self.width as nat, self.height as nat, 3nat],
                grid_cells(self.grid).len() == n * 3,
                start.len() == n * 3,
                start == grid_cells(old(self).grid),
                forall|q: int| 0 <= q < pass.len() ==> (#[trigger] pass[q])@.within(COLOR_LIMIT as int),
                forall|i: int| 0 <= i < n * 3 ==> #[trigger] start[i] <= self.passes * 0x100_0000_0000,
                forall|i: int|
                    0 <= i < p * 3 ==> #[trigger] grid_cells(self.grid)[i] == start[i] + channel(
                        pass[i / 3]@,
                        i % 3,
                    ),
                forall|i: int| p * 3 <= i < n * 3 ==> #[trigger] grid_cells(self.grid)[i] == start[i],
            decreases n - p,
        {
            let x = p / self.height;
            let y = p % self.height;
            proof {
                lemma_pixel_coords(p as int, self.width as int, self.height as int);
            }
            let c = pass[p];
            self.add_cell(x, y, 0, c.r, Ghost(p as int), Ghost(start));
            self.add_cell(x, y, 1, c.g, Ghost(p as int), Ghost(start));
            self.add_cell(x, y, 2, c.b, Ghost(p as int), Ghost(start));
            proof {
                assert forall|i: int| 0 <= i < (p + 1) * 3 implies #[trigger] grid_cells(self.grid)[i]
                    == start[i] + channel(pass[i / 3]@, i % 3) by {
                    if i >= p * 3 {
                        assert(i / 3 == p);
                    }
                }
            }
            p += 1;
        }
        self.passes = self.passes + 1;
        proof {
            assert forall|i: int| 0 <= i < grid_cells(self.grid).len() implies #[trigger] grid_cells(
                self.grid,
            )[i] <= self.passes * 0x100_0000_0000 by {
                assert(0 <= i / 3 < n);
            }
        }
    }

    fn add_cell(&mut self, x: usize, y: usize, c: usize, v: u64, p: Ghost<int>, start: Ghost<Seq<u128>>)
        requires
            grid_extents(old(self).grid) == seq![old(self).width as nat, old(self).height as nat, 3nat],
            x < old(self).width,
            y < old(self).height,
            c < 3,
            p@ == x * old(self).height + y,
            v <= COLOR_LIMIT,
            old(self).passes < u64::MAX,
            grid_cells(old(self).grid).len() == start@.len(),
            0 <= p@ * 3 + c < start@.len(),
            grid_cells(old(self).grid)[p@ * 3 + c] == start@[p@ * 3 + c],
            start@[p@ * 3 + c] <= old(self).passes * 0x100_0000_0000,
        ensures
            final(self).width == old(self).width,
            final(self).height == old(self).height,
            final(self).passes == old(self).passes,
            grid_extents(final(self).grid) == grid_extents(old(self).grid),
            grid_cells(final(self).grid) == grid_cells(old(self).grid).update(
                p@ * 3 + c,
                (start@[p@ * 3 + c] + v) as u128,
            ),
    {
        proof {
            assert((x * old(self).height + y) * 3 + c == p@ * 3 + c);
        }
        let s = grid_get(&self.grid, x, y, c);
        grid_set(&mut self.grid, x, y, c, s + v as u128);
    }

    /// The image to show: per pixel and channel, the mean of the passes at
    /// 255 for an intensity of one, clamped to 255, in the order of `sums`.
    pub fn display(&self) -> (r: Vec<u8>)
        requires
            self.wf(),
            self.spec_passes() > 0,
        ensures
            r.len() == self.sums().len(),
            forall|i: int|
                0 <= i < r.len() ==> #[trigger] r[i] as int == display_value(
                    self.sums()[i] as int,
                    self.spec_passes() as int,
                ),
    {
        let n = self.width * self.height;
        let mut out: Vec<u8> = Vec::new();
        let mut p: usize = 0;
        while p < n
            invariant
                self.wf(),
                self.passes > 0,
                n == self.width * self.height,
                p <= n,
                out.len() == p * 3,
                forall|i: int|
                    0 <= i < out.len() ==> #[trigger] out[i] as int == display_value(
                        grid_cells(self.grid)[i] as int,
                        self.passes as int,
                    ),
            decreases n - p,
        {
            let x = p / self.height;
            let y = p % self.height;
            proof {
                lemma_pixel_coords(p as int, self.width as int, self.height as int);
            }
            let mut c: usize = 0;
            while c < 3
                invariant
                    self.wf(),
                    self.passes > 0,
                    n == self.width * self.height,
                    p < n,
                    x < self.width,
                    y < self.height,
                    x * self.height + y == p,
                    c <= 3,
                    out.len() == p * 3 + c,
                    forall|i: int|
                        0 <= i < out.len() ==> #[trigger] out[i] as int == display_value(
                            grid_cells(self.grid)[i] as int,
                            self.passes as int,
                        ),
                decreases 3 - c,
            {
                let s = grid_get(&self.grid, x, y, c);
                out.push(self.display_byte(s, Ghost(p * 3 + c)));
                c += 1;
            }
            p += 1;
        }
        out
    }

    fn display_byte(&self, sum: u128, i: Ghost<int>) -> (b: u8)
        requires
            self.wf(),
            self.passes > 0,
            0 <= i@ < grid_cells(self.grid).len(),
            sum == grid_cells(self.grid)[i@],
        ensures
            b as int == display_value(sum as int, self.passes as int),
    {
        let mean = sum / self.passes as u128;
        proof {
            vstd::arithmetic::div_mod::lemma_div_is_ordered(
                sum as int,
                self.passes * 0x100_0000_0000,
                self.passes as int,
            );
            vstd::arithmetic::div_mod::lemma_div_multiples_vanish(0x100_0000_0000, self.passes as int);
        }
        clamp(mean * 255 / 1_000_000, 0, 255) as u8
    }
}

/// Pixel `p = x * height + y` of a `width × height` image has `x = p / height`
/// and `y = p % height`, inside the image.
pub proof fn lemma_pixel_coords(p: int, width: int, height: int)
    requires
        width >= 0,
        height >= 0,
        0 <= p < width * height,
    ensures
        height > 0,
        0 <= p / height < width,
        0 <= p % height < height,
        (p / height) * height + p % height == p,
{
    assert(height > 0) by (nonlinear_arith)
        requires 0 <= p < width * height, width >= 0, height >= 0;
    vstd::arithmetic::div_mod::lemma_fundamental_div_mod(p, height);
    let (x, y) = (p / height, p % height);
    assert(0 <= x < width) by (nonlinear_arith)
        requires
            p == height * x + y,
            0 <= y < height,
            0 <= p < width * height,
            height > 0;
    assert(x * height + y == p) by (nonlinear_arith)
        requires p == height * x + y;
}

/// Running `P` passes of one sample each shows the same pixel as one pass of
/// the same `P` samples: both show the mean of the samples.
pub proof fn lemma_passes_match_samples(samples: Seq<Rgb>, k: int)
    requires
        samples.len() > 0,
    ensures
        forall|j: int| 0 <= j < samples.len() ==> average(seq![samples[j]]) == samples[j],
        display_value(channel(sum_colors(samples), k), samples.len() as int) == display_value(
            channel(average(samples), k),
            1,
        ),
{
    assert forall|j: int| 0 <= j < samples.len() implies average(seq![samples[j]]) == samples[j] by {
        let one = seq![samples[j]];
        assert(one.drop_last() =~= Seq::<Rgb>::empty());
        assert(sum_colors(Seq::<Rgb>::empty()) == Rgb::black());
        assert(one.last() == samples[j]);
        assert(sum_colors(one) == samples[j]);
    }
}

} // verus!
