//! Display-ready pixels: three channel levels from 0 to 255.

use vstd::prelude::*;
use crate::interval::Interval;

verus! {

/// The largest level of a channel.
pub const MAX_LEVEL: u32 = 255;

/// A pixel as it is written out: red, green and blue levels.
#[derive(Clone, Copy, Debug, PartialEq, Eq, Structural)]
pub struct Rgb {
    pub r: u8,
    pub g: u8,
    pub b: u8,
}

/// The level that stands for a scaled intensity: the intensity itself up
/// to 255, and 255 for anything above.
pub open spec fn level_of(scaled: u32) -> u8 {
    if scaled > 255 {
        255u8
    } else {
        scaled as u8
    }
}

/// Brings a scaled intensity into the range of a channel.
pub fn quantize(scaled: u32) -> (level: u8)
    ensures
        level == level_of(scaled),
        level <= scaled,
        scaled <= MAX_LEVEL ==> level == scaled,
{
    let range = Interval::new(0, MAX_LEVEL);
    let clamped: u32 = range.clamp(scaled);
    clamped as u8
}

impl Rgb {
    /// The pixel for three scaled intensities, each brought into range.
    pub fn from_levels(r: u32, g: u32, b: u32) -> (p: Rgb)
        ensures
            p == (Rgb { r: level_of(r), g: level_of(g), b: level_of(b) }),
    {
        Rgb { r: quantize(r), g: quantize(g), b: quantize(b) }
    }

    /// The pixel's line of text: `"r g b\n"`, levels in decimal.
    pub fn to_string(&self) -> (text: String)
        ensures
            text@ == crate::ppm::pixel_text(*self),
    {
        let mut text = String::new();
        crate::ppm::push_pixel(&mut text, *self);
        assert(text@ =~= crate::ppm::pixel_text(*self));
        text
    }
}

} // verus!
