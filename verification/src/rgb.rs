use vstd::prelude::*;

verus! {

/// One color of the expression VM: three independent 8-bit channels.
/// All operators of the language act on each channel separately.
#[derive(Debug, Clone, Copy, PartialEq, Eq, Structural)]
pub struct Rgb {
    pub r: u8,
    pub g: u8,
    pub b: u8,
}

/// A color together with its alpha channel, as one pixel of an image.
#[derive(Debug, Clone, Copy, PartialEq, Eq, Structural)]
pub struct Rgba {
    pub r: u8,
    pub g: u8,
    pub b: u8,
    pub a: u8,
}

impl Rgb {
    pub fn new(r: u8, g: u8, b: u8) -> (c: Self)
        ensures
            c == (Rgb { r, g, b }),
    {
        Rgb { r, g, b }
    }

    pub fn new_red(r: u8) -> (c: Self)
        ensures
            c == (Rgb { r, g: 0, b: 0 }),
    {
        Rgb { r, g: 0, b: 0 }
    }

    pub fn new_green(g: u8) -> (c: Self)
        ensures
            c == (Rgb { r: 0, g, b: 0 }),
    {
        Rgb { r: 0, g, b: 0 }
    }

    pub fn new_blue(b: u8) -> (c: Self)
        ensures
            c == (Rgb { r: 0, g: 0, b }),
    {
        Rgb { r: 0, g: 0, b }
    }

    /// The channel of this color selected by index 0, 1 or 2.
    pub open spec fn spec_channel(self, k: int) -> u8 {
        if k == 0 {
            self.r
        } else if k == 1 {
            self.g
        } else {
            self.b
        }
    }
}

impl Rgba {
    /// The color part of this pixel, without its alpha channel.
    pub open spec fn spec_rgb(self) -> Rgb {
        Rgb { r: self.r, g: self.g, b: self.b }
    }

    pub fn rgb(self) -> (c: Rgb)
        ensures
            c == self.spec_rgb(),
    {
        Rgb { r: self.r, g: self.g, b: self.b }
    }

    /// Whether any channel, alpha included, is non-zero.
    pub open spec fn spec_non_zero(self) -> bool {
        self.r != 0 || self.g != 0 || self.b != 0 || self.a != 0
    }
}

} // verus!
