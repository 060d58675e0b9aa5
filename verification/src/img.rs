use vstd::prelude::*;
use crate::rgb::Rgba;

verus! {

/// The mathematical model of an image: its dimensions and its pixels in
/// row-major order (the pixel at `(x, y)` sits at index `y * width + x`).
pub ghost struct ImgSpec {
    pub width: u32,
    pub height: u32,
    pub pixels: Seq<Rgba>,
}

impl ImgSpec {
    /// A well-formed image holds exactly one pixel per coordinate.
    pub open spec fn wf(self) -> bool {
        self.pixels.len() == self.width * self.height
    }

    pub open spec fn in_bounds(self, x: int, y: int) -> bool {
        0 <= x < self.width && 0 <= y < self.height
    }

    /// The pixel at `(x, y)`.
    pub open spec fn pix(self, x: int, y: int) -> Rgba {
        self.pixels[y * self.width + x]
    }
}

/// An image held as plain values: dimensions and a row-major pixel vector.
pub struct Image {
    pub width: u32,
    pub height: u32,
    pub pixels: Vec<Rgba>,
}

impl View for Image {
    type V = ImgSpec;

    open spec fn view(&self) -> ImgSpec {
        ImgSpec { width: self.width, height: self.height, pixels: self.pixels@ }
    }
}

impl Image {
    /// Builds an image from a row-major pixel vector; `None` if the vector
    /// does not hold exactly `width * height` pixels.
    pub fn from_pixels(width: u32, height: u32, pixels: Vec<Rgba>) -> (r: Option<Image>)
        ensures
            match r {
                Some(img) => img@ == (ImgSpec { width, height, pixels: pixels@ }) && img@.wf(),
                None => pixels@.len() != width * height,
            },
    {
        proof {
            assert((width as int) * (height as int) <= 0xffff_ffff * 0xffff_ffff)
                by (nonlinear_arith)
                requires
                    width <= 0xffff_ffffu64,
                    height <= 0xffff_ffffu64,
            ;
        }
        if pixels.len() as u64 == (width as u64) * (height as u64) {
            Some(Image { width, height, pixels })
        } else {
            None
        }
    }

    /// The index of `(x, y)` into the pixel vector.
    proof fn lemma_index_in_range(self, x: int, y: int)
        requires
            self@.wf(),
            self@.in_bounds(x, y),
        ensures
            0 <= y * self@.width + x < self@.pixels.len(),
    {
        let w = self@.width as int;
        let h = self@.height as int;
        assert(y * w + x < w * h) by (nonlinear_arith)
            requires
                0 <= x < w,
                0 <= y < h,
        ;
        assert(y * w >= 0) by (nonlinear_arith)
            requires
                y >= 0,
                w >= 0,
        ;
    }

    pub fn get_pixel(&self, x: u32, y: u32) -> (p: Rgba)
        requires
            self@.wf(),
            self@.in_bounds(x as int, y as int),
        ensures
            p == self@.pix(x as int, y as int),
    {
        proof {
            self.lemma_index_in_range(x as int, y as int);
        }
        let n = self.pixels.len();
        self.pixels[(y as usize) * (self.width as usize) + (x as usize)]
    }

    pub fn put_pixel(&mut self, x: u32, y: u32, p: Rgba)
        requires
            old(self)@.wf(),
            old(self)@.in_bounds(x as int, y as int),
        ensures
            final(self)@ == (ImgSpec {
                pixels: old(self)@.pixels.update(y * old(self)@.width + x, p),
                ..old(self)@
            }),
            final(self)@.wf(),
    {
        proof {
            self.lemma_index_in_range(x as int, y as int);
        }
        let n = self.pixels.len();
        let i: usize = (y as usize) * (self.width as usize) + (x as usize);
        self.pixels[i] = p;
    }
}

} // verus!
