use vstd::prelude::*;
use crate::vector::SCALE;

verus! {

/// Largest channel value that the tracer carries: emissions stay below it.
pub const COLOR_LIMIT: u64 = 0x100_0000_0000;

/// A color as the contracts see it.
pub struct Rgb {
    pub r: int,
    pub g: int,
    pub b: int,
}

impl Rgb {
    pub open spec fn black() -> Rgb {
        Rgb { r: 0, g: 0, b: 0 }
    }

    /// Every channel lies in `0..=k`.
    pub open spec fn within(self, k: int) -> bool {
        0 <= self.r <= k && 0 <= self.g <= k && 0 <= self.b <= k
    }

    /// Light `incoming` after a surface of albedo `self` has reflected it.
    pub open spec fn attenuate(self, incoming: Rgb) -> Rgb {
        Rgb {
            r: self.r * incoming.r / SCALE as int,
            g: self.g * incoming.g / SCALE as int,
            b: self.b * incoming.b / SCALE as int,
        }
    }
}

/// A linear RGB color in fixed point: `SCALE` is an intensity of one.
#[derive(Clone, Copy, Debug, PartialEq, Eq, Structural)]
pub struct Color {
    pub r: u64,
    pub g: u64,
    pub b: u64,
}

impl View for Color {
    type V = Rgb;

    open spec fn view(&self) -> Rgb {
        Rgb { r: self.r as int, g: self.g as int, b: self.b as int }
    }
}

fn scale_channel(a: u64, i: u64) -> (r: u64)
    requires
        a <= COLOR_LIMIT,
        i <= COLOR_LIMIT,
    ensures
        r == a * i / SCALE as int,
{
    assert(a as u128 * i as u128 <= 0x100_0000_0000u128 * 0x100_0000_0000u128) by (nonlinear_arith)
        requires a <= 0x100_0000_0000u64, i <= 0x100_0000_0000u64;
    let p: u128 = a as u128 * i as u128;
    let q: u128 = p / 1_000_000;
    assert(q <= p);
    (q as u64)
}

impl Color {
    pub fn new(r: u64, g: u64, b: u64) -> (c: Color)
        ensures
            c@ == (Rgb { r: r as int, g: g as int, b: b as int }),
    {
        Color { r, g, b }
    }

    pub fn black() -> (c: Color)
        ensures
            c@ == Rgb::black(),
    {
        Color { r: 0, g: 0, b: 0 }
    }

    /// The light `incoming` as a surface of albedo `self` reflects it.
    pub fn attenuate(&self, incoming: &Color) -> (c: Color)
        requires
            self@.within(COLOR_LIMIT as int),
            incoming@.within(COLOR_LIMIT as int),
        ensures
            c@ == self@.attenuate(incoming@),
    {
        Color {
            r: scale_channel(self.r, incoming.r),
            g: scale_channel(self.g, incoming.g),
            b: scale_channel(self.b, incoming.b),
        }
    }
}

/// Reflecting off an albedo of at most one never adds light.
pub proof fn lemma_attenuate_bound(albedo: Rgb, incoming: Rgb, k: int)
    requires
        albedo.within(SCALE as int),
        incoming.within(k),
    ensures
        albedo.attenuate(incoming).within(k),
{
    let s = SCALE as int;
    assert(0 <= albedo.r * incoming.r <= s * k) by (nonlinear_arith)
        requires 0 <= albedo.r <= s, 0 <= incoming.r <= k;
    assert(0 <= albedo.g * incoming.g <= s * k) by (nonlinear_arith)
        requires 0 <= albedo.g <= s, 0 <= incoming.g <= k;
    assert(0 <= albedo.b * incoming.b <= s * k) by (nonlinear_arith)
        requires 0 <= albedo.b <= s, 0 <= incoming.b <= k;
    vstd::arithmetic::div_mod::lemma_div_is_ordered(albedo.r * incoming.r, s * k, s);
    vstd::arithmetic::div_mod::lemma_div_is_ordered(albedo.g * incoming.g, s * k, s);
    vstd::arithmetic::div_mod::lemma_div_is_ordered(albedo.b * incoming.b, s * k, s);
    vstd::arithmetic::div_mod::lemma_div_multiples_vanish(k, s);
    vstd::arithmetic::div_mod::lemma_div_pos_is_pos(albedo.r * incoming.r, s);
    vstd::arithmetic::div_mod::lemma_div_pos_is_pos(albedo.g * incoming.g, s);
    vstd::arithmetic::div_mod::lemma_div_pos_is_pos(albedo.b * incoming.b, s);
}

} // verus!
