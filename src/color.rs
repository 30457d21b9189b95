//! Colors, mixers, and the elements that palette cells hold.
use crate::address::Address;
use vstd::prelude::*;

verus! {

/// A terminal RGB color.
#[derive(Debug, Clone, Copy, PartialEq, Eq, Structural)]
pub struct Color {
    /// The red channel.
    pub r: u8,
    /// The green channel.
    pub g: u8,
    /// The blue channel.
    pub b: u8,
}

/// One channel of the linear interpolation from `a` to `b` by `num / den`,
/// rounded down.
pub open spec fn lerp_channel(a: u8, b: u8, num: u64, den: u64) -> int
    recommends
        0 < den,
        num <= den,
{
    (a as int * (den - num) + b as int * num) / den as int
}

/// The linear interpolation of two colors by `num / den`.
pub open spec fn lerp_spec(x: Color, y: Color, num: u64, den: u64) -> Color {
    Color {
        r: lerp_channel(x.r, y.r, num, den) as u8,
        g: lerp_channel(x.g, y.g, num, den) as u8,
        b: lerp_channel(x.b, y.b, num, den) as u8,
    }
}

proof fn lemma_lerp_channel_bound(a: u8, b: u8, num: u64, den: u64)
    requires
        0 < den,
        num <= den,
    ensures
        0 <= lerp_channel(a, b, num, den) <= 255,
{
    let d = den as int;
    let n = num as int;
    let s = a as int * (d - n) + b as int * n;
    assert(0 <= s <= 255 * d) by (nonlinear_arith)
        requires 0 <= a <= 255, 0 <= b <= 255, 0 <= n <= d, s == a as int * (d - n) + b as int * n;
    vstd::arithmetic::div_mod::lemma_div_is_ordered(s, 255 * d, d);
    vstd::arithmetic::div_mod::lemma_div_multiples_vanish(255, d);
    vstd::arithmetic::div_mod::lemma_div_pos_is_pos(s, d);
}

fn lerp_u8(a: u8, b: u8, num: u64, den: u64) -> (r: u8)
    requires
        0 < den,
        num <= den,
    ensures
        r as int == lerp_channel(a, b, num, den),
{
    proof {
        lemma_lerp_channel_bound(a, b, num, den);
    }
    let d = den as u128;
    let n = num as u128;
    assert(a as u128 * (d - n) <= 255 * 0x1_0000_0000_0000_0000) by (nonlinear_arith)
        requires a <= 255, d - n <= 0x1_0000_0000_0000_0000, d >= n;
    assert(b as u128 * n <= 255 * 0x1_0000_0000_0000_0000) by (nonlinear_arith)
        requires b <= 255, n <= 0x1_0000_0000_0000_0000;
    let s = a as u128 * (d - n) + b as u128 * n;
    (s / d) as u8
}

impl Color {
    /// Creates a new color from its channels.
    pub fn new(r: u8, g: u8, b: u8) -> (c: Color)
        ensures
            c == (Color { r, g, b }),
    {
        Color { r, g, b }
    }

    /// The linear interpolation from `x` to `y` by `num / den`, each
    /// channel rounded down.
    pub fn rgb_lerp(x: Color, y: Color, num: u64, den: u64) -> (c: Color)
        requires
            0 < den,
            num <= den,
        ensures
            c == lerp_spec(x, y, num, den),
    {
        Color { r: lerp_u8(x.r, y.r, num, den), g: lerp_u8(x.g, y.g, num, den), b: lerp_u8(x.b, y.b, num, den) }
    }
}

/// A function from an ordered list of source colors to a color.
#[derive(Debug, Clone, Copy, PartialEq, Eq, Structural)]
pub enum Mixer {
    /// The linear interpolation of two sources by the amount `num / den`.
    Ramp {
        /// The numerator of the amount.
        num: u64,
        /// The denominator of the amount.
        den: u64,
    },
    /// The color of a single source, passed through.
    Watch,
}

impl Mixer {
    /// Whether the mixer's parameters are meaningful: a ramp's amount lies
    /// between zero and one.
    pub open spec fn wf(self) -> bool {
        match self {
            Mixer::Ramp { num, den } => 0 < den && num <= den,
            Mixer::Watch => true,
        }
    }

    /// The number of sources the mixer reads.
    pub open spec fn order_spec(self) -> nat {
        match self {
            Mixer::Ramp { .. } => 2,
            Mixer::Watch => 1,
        }
    }

    /// The color the mixer makes of its source colors.
    pub open spec fn mix_spec(self, colors: Seq<Color>) -> Color
        recommends
            self.wf(),
            colors.len() == self.order_spec(),
    {
        match self {
            Mixer::Ramp { num, den } => lerp_spec(colors[0], colors[1], num, den),
            Mixer::Watch => colors[0],
        }
    }

    /// Returns the number of sources the mixer reads.
    pub fn order(&self) -> (r: usize)
        ensures
            r == self.order_spec(),
    {
        match self {
            Mixer::Ramp { .. } => 2,
            Mixer::Watch => 1,
        }
    }

    /// Mixes the source colors, given in source order.
    pub fn mix(&self, colors: &Vec<Color>) -> (c: Color)
        requires
            self.wf(),
            colors@.len() == self.order_spec(),
        ensures
            c == self.mix_spec(colors@),
    {
        match *self {
            Mixer::Ramp { num, den } => Color::rgb_lerp(colors[0], colors[1], num, den),
            Mixer::Watch => colors[0],
        }
    }
}

/// The value held in a palette cell.
#[derive(Debug, Clone)]
pub enum ColorElement {
    /// A terminal color.
    Color(Color),
    /// A color computed by a mixer from the colors of other cells.
    Mixed {
        /// The function applied to the source colors.
        mixer: Mixer,
        /// The addresses of the source cells, in order.
        sources: Vec<Address>,
    },
}

} // verus!
