//! Colours, the payloads of base states.

use crate::weight::UNIT;
use vstd::prelude::*;

verus! {

/// An RGB colour.
#[derive(Clone, Copy, Debug, PartialEq, Eq, Structural)]
pub struct Color {
    pub r: u8,
    pub g: u8,
    pub b: u8,
}

/// A channel multiplied by a weight: the product is rounded down and stops at 255.
pub open spec fn dimmed(channel: u8, weight: u32) -> u8 {
    let v = (channel as int * weight as int) / (UNIT as int);
    if v > 255 {
        255u8
    } else {
        v as u8
    }
}

/// The sum of two channels, which stops at 255.
pub open spec fn capped_sum(a: u8, b: u8) -> u8 {
    if a + b > 255 {
        255u8
    } else {
        (a + b) as u8
    }
}

fn dim(channel: u8, weight: u32) -> (v: u8)
    ensures
        v == dimmed(channel, weight),
{
    assert(channel as int * weight as int <= 255 * 0xffff_ffff) by (nonlinear_arith)
        requires
            channel <= 255,
            weight <= 0xffff_ffff,
    ;
    let product: u64 = (channel as u64) * (weight as u64);
    let v: u64 = product / (UNIT as u64);
    if v > 255 {
        255
    } else {
        v as u8
    }
}

fn capped(a: u8, b: u8) -> (v: u8)
    ensures
        v == capped_sum(a, b),
{
    if 255 - a < b {
        255
    } else {
        a + b
    }
}

impl Color {
    /// This colour with every channel multiplied by `weight`.
    pub open spec fn times(self, weight: u32) -> Color {
        Color { r: dimmed(self.r, weight), g: dimmed(self.g, weight), b: dimmed(self.b, weight) }
    }

    /// The channel-wise sum of two colours, each channel stopping at 255.
    pub open spec fn plus(self, rhs: Color) -> Color {
        Color {
            r: capped_sum(self.r, rhs.r),
            g: capped_sum(self.g, rhs.g),
            b: capped_sum(self.b, rhs.b),
        }
    }

    pub fn black() -> (c: Color)
        ensures
            c == (Color { r: 0, g: 0, b: 0 }),
    {
        Color { r: 0, g: 0, b: 0 }
    }

    pub fn new(r: u8, g: u8, b: u8) -> (c: Color)
        ensures
            c == (Color { r, g, b }),
    {
        Color { r, g, b }
    }

    /// Adds `rhs` to this colour, channel by channel, without overflow.
    pub fn add_assign(&mut self, rhs: Color)
        ensures
            *final(self) == old(self).plus(rhs),
    {
        self.r = capped(self.r, rhs.r);
        self.g = capped(self.g, rhs.g);
        self.b = capped(self.b, rhs.b);
    }

    /// This colour seen through a weight.
    pub fn mul(self, rhs: u32) -> (c: Color)
        ensures
            c == self.times(rhs),
    {
        Color { r: dim(self.r, rhs), g: dim(self.g, rhs), b: dim(self.b, rhs) }
    }
}

} // verus!
