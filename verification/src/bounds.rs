use vstd::prelude::*;
use crate::img::{Image, ImgSpec};

verus! {

/// The tight rectangle (inclusive on all four sides) around the pixels of an
/// image that have any non-zero channel, alpha included.
#[derive(Debug, Clone, Copy, PartialEq, Eq, Structural)]
pub struct Bounds {
    pub min_x: u32,
    pub min_y: u32,
    pub max_x: u32,
    pub max_y: u32,
}

/// Whether the pixel at `(x, y)` counts for the bounds: it exists and has a
/// non-zero channel.
pub open spec fn nz(img: ImgSpec, x: int, y: int) -> bool {
    img.in_bounds(x, y) && img.pix(x, y).spec_non_zero()
}

/// The accumulator before any pixel has been seen: minima high, maxima low,
/// so that the first hit sets all four fields.
pub open spec fn spec_bounds_init() -> Bounds {
    Bounds { min_x: u32::MAX, min_y: u32::MAX, max_x: 0, max_y: 0 }
}

/// Folds one non-zero pixel into the accumulator.
pub open spec fn spec_update(b: Bounds, x: u32, y: u32) -> Bounds {
    Bounds {
        min_x: if x < b.min_x { x } else { b.min_x },
        max_x: if x > b.max_x { x } else { b.max_x },
        min_y: if y < b.min_y { y } else { b.min_y },
        max_y: if y > b.max_y { y } else { b.max_y },
    }
}

/// Folds the pixel at `(x, y)` into the accumulator, if it counts.
pub open spec fn spec_visit(img: ImgSpec, b: Bounds, x: int, y: int) -> Bounds {
    if nz(img, x, y) {
        spec_update(b, x as u32, y as u32)
    } else {
        b
    }
}

/// The accumulator after the first `x` pixels of row `y`, starting from `b`.
pub open spec fn spec_scan_row(img: ImgSpec, y: int, x: int, b: Bounds) -> Bounds
    decreases x,
{
    if x <= 0 {
        b
    } else {
        spec_visit(img, spec_scan_row(img, y, x - 1, b), x - 1, y)
    }
}

/// The accumulator after the first `y` whole rows.
pub open spec fn spec_scan(img: ImgSpec, y: int) -> Bounds
    decreases y,
{
    if y <= 0 {
        spec_bounds_init()
    } else {
        spec_scan_row(img, y - 1, img.width as int, spec_scan(img, y - 1))
    }
}

/// The bounds of an image: the full scan, kept only if it saw any pixel.
pub open spec fn spec_bounds(img: ImgSpec) -> Option<Bounds> {
    let b = spec_scan(img, img.height as int);
    if b.min_x <= b.max_x && b.min_y <= b.max_y {
        Some(b)
    } else {
        None
    }
}

/// What the accumulator means over the pixels scanned so far: the pixels at
/// `(px, py)` with `py < y`, or `py == y && px < x`.
pub open spec fn scanned(x: int, y: int, px: int, py: int) -> bool {
    py < y || (py == y && px < x)
}

pub open spec fn scan_inv(img: ImgSpec, x: int, y: int, b: Bounds) -> bool {
    if exists|px: int, py: int| scanned(x, y, px, py) && nz(img, px, py) {
        &&& forall|px: int, py: int|
            scanned(x, y, px, py) && nz(img, px, py) ==> b.min_x <= px <= b.max_x && b.min_y <= py
                <= b.max_y
        &&& exists|py: int| scanned(x, y, b.min_x as int, py) && nz(img, b.min_x as int, py)
        &&& exists|py: int| scanned(x, y, b.max_x as int, py) && nz(img, b.max_x as int, py)
        &&& exists|px: int| scanned(x, y, px, b.min_y as int) && nz(img, px, b.min_y as int)
        &&& exists|px: int| scanned(x, y, px, b.max_y as int) && nz(img, px, b.max_y as int)
    } else {
        b == spec_bounds_init()
    }
}

proof fn lemma_scan_row_inv(img: ImgSpec, y: int, x: int, b: Bounds)
    requires
        0 <= x <= img.width,
        0 <= y,
        scan_inv(img, 0, y, b),
    ensures
        scan_inv(img, x, y, spec_scan_row(img, y, x, b)),
    decreases x,
{
    if x <= 0 {
        assert(forall|px: int, py: int| scanned(x, y, px, py) ==> scanned(0, y, px, py));
        assert(forall|px: int, py: int| scanned(0, y, px, py) ==> scanned(x, y, px, py));
    } else {
        lemma_scan_row_inv(img, y, x - 1, b);
        let b1 = spec_scan_row(img, y, x - 1, b);
        let b2 = spec_visit(img, b1, x - 1, y);
        assert(forall|px: int, py: int|
            scanned(x, y, px, py) <==> scanned(x - 1, y, px, py) || (px == x - 1 && py == y));
        if nz(img, x - 1, y) {
            let xb = (x - 1) as u32;
            let yb = y as u32;
            assert(xb == x - 1 && yb == y);
            assert(b2 == spec_update(b1, xb, yb));
            assert(scanned(x, y, x - 1, y));
            if exists|px: int, py: int| scanned(x - 1, y, px, py) && nz(img, px, py) {
                // carry the four witnesses of the smaller domain over, unless
                // the new pixel replaces them
                assert(exists|py: int| scanned(x, y, b2.min_x as int, py) && nz(
                    img,
                    b2.min_x as int,
                    py,
                )) by {
                    if xb < b1.min_x {
                        assert(scanned(x, y, b2.min_x as int, y) && nz(img, b2.min_x as int, y));
                    } else {
                        let py = choose|py: int|
                            scanned(x - 1, y, b1.min_x as int, py) && nz(img, b1.min_x as int, py);
                        assert(scanned(x, y, b2.min_x as int, py) && nz(img, b2.min_x as int, py));
                    }
                }
                assert(exists|py: int| scanned(x, y, b2.max_x as int, py) && nz(
                    img,
                    b2.max_x as int,
                    py,
                )) by {
                    if xb > b1.max_x {
                        assert(scanned(x, y, b2.max_x as int, y) && nz(img, b2.max_x as int, y));
                    } else {
                        let py = choose|py: int|
                            scanned(x - 1, y, b1.max_x as int, py) && nz(img, b1.max_x as int, py);
                        assert(scanned(x, y, b2.max_x as int, py) && nz(img, b2.max_x as int, py));
                    }
                }
                assert(exists|px: int| scanned(x, y, px, b2.min_y as int) && nz(
                    img,
                    px,
                    b2.min_y as int,
                )) by {
                    if yb < b1.min_y {
                        assert(scanned(x, y, x - 1, b2.min_y as int) && nz(
                            img,
                            x - 1,
                            b2.min_y as int,
                        ));
                    } else {
                        let px = choose|px: int|
                            scanned(x - 1, y, px, b1.min_y as int) && nz(img, px, b1.min_y as int);
                        assert(scanned(x, y, px, b2.min_y as int) && nz(img, px, b2.min_y as int));
                    }
                }
                assert(exists|px: int| scanned(x, y, px, b2.max_y as int) && nz(
                    img,
                    px,
                    b2.max_y as int,
                )) by {
                    if yb > b1.max_y {
                        assert(scanned(x, y, x - 1, b2.max_y as int) && nz(
                            img,
                            x - 1,
                            b2.max_y as int,
                        ));
                    } else {
                        let px = choose|px: int|
                            scanned(x - 1, y, px, b1.max_y as int) && nz(img, px, b1.max_y as int);
                        assert(scanned(x, y, px, b2.max_y as int) && nz(img, px, b2.max_y as int));
                    }
                }
                assert(scan_inv(img, x, y, b2));
            } else {
                // first non-zero pixel seen: b1 is the initial accumulator and
                // every field of b2 names the new pixel
                assert(b1 == spec_bounds_init());
                assert(b2.min_x == xb && b2.max_x == xb && b2.min_y == yb && b2.max_y == yb);
                assert(scanned(x, y, b2.min_x as int, y) && nz(img, b2.min_x as int, y));
                assert(scanned(x, y, x - 1, b2.min_y as int) && nz(img, x - 1, b2.min_y as int));
                assert(forall|px: int, py: int|
                    scanned(x, y, px, py) && nz(img, px, py) ==> px == x - 1 && py == y);
                assert(scan_inv(img, x, y, b2));
            }
        } else {
            assert(scan_inv(img, x, y, b2));
        }
    }
}

proof fn lemma_scan_inv(img: ImgSpec, y: int)
    requires
        0 <= y <= img.height,
    ensures
        scan_inv(img, 0, y, spec_scan(img, y)),
    decreases y,
{
    if y <= 0 {
        assert(forall|px: int, py: int| !scanned(0, 0, px, py) || !nz(img, px, py));
    } else {
        lemma_scan_inv(img, y - 1);
        let b1 = spec_scan(img, y - 1);
        // scanning all of row y - 1 takes the domain from (0, y - 1) to (0, y)
        assert(scan_inv(img, 0, y - 1, b1) ==> scan_inv(img, 0, y - 1, b1));
        assert(forall|px: int, py: int|
            nz(img, px, py) ==> 0 <= px < img.width && 0 <= py < img.height);
        assert(forall|px: int, py: int|
            nz(img, px, py) ==> (scanned(img.width as int, y - 1, px, py) <==> scanned(
                0,
                y,
                px,
                py,
            )));
        lemma_scan_row_inv(img, y - 1, img.width as int, b1);
        let b2 = spec_scan_row(img, y - 1, img.width as int, b1);
        assert(spec_scan(img, y) == b2);
        if exists|px: int, py: int| scanned(0, y, px, py) && nz(img, px, py) {
            assert(scan_inv(img, 0, y, b2));
        } else {
            assert(scan_inv(img, 0, y, b2));
        }
    }
}

impl Bounds {
    pub fn min_x(&self) -> (r: u32)
        ensures
            r == self.min_x,
    {
        self.min_x
    }

    pub fn max_x(&self) -> (r: u32)
        ensures
            r == self.max_x,
    {
        self.max_x
    }

    pub fn min_y(&self) -> (r: u32)
        ensures
            r == self.min_y,
    {
        self.min_y
    }

    pub fn max_y(&self) -> (r: u32)
        ensures
            r == self.max_y,
    {
        self.max_y
    }

    fn new() -> (b: Bounds)
        ensures
            b == spec_bounds_init(),
    {
        Bounds { min_x: u32::MAX, min_y: u32::MAX, max_x: 0, max_y: 0 }
    }

    fn update(&mut self, x: u32, y: u32)
        ensures
            *final(self) == spec_update(*old(self), x, y),
    {
        if x < self.min_x {
            self.min_x = x;
        }
        if x > self.max_x {
            self.max_x = x;
        }
        if y < self.min_y {
            self.min_y = y;
        }
        if y > self.max_y {
            self.max_y = y;
        }
    }
}

/// Scans every pixel and returns the tight rectangle around those with any
/// non-zero channel, or `None` when the image has none (or no pixels at all).
pub fn find_non_zero_bounds(img: &Image) -> (r: Option<Bounds>)
    requires
        img@.wf(),
    ensures
        r == spec_bounds(img@),
        r is None <==> (forall|x: int, y: int|
            img@.in_bounds(x, y) ==> !img@.pix(x, y).spec_non_zero()),
        r matches Some(b) ==> forall|x: int, y: int|
            nz(img@, x, y) ==> b.min_x <= x <= b.max_x && b.min_y <= y <= b.max_y,
{
    let width = img.width;
    let height = img.height;
    let mut bounds = Bounds::new();
    for y in 0..height
        invariant
            img@.wf(),
            width == img@.width,
            height == img@.height,
            bounds == spec_scan(img@, y as int),
    {
        for x in 0..width
            invariant
                img@.wf(),
                width == img@.width,
                height == img@.height,
                y < height,
                bounds == spec_scan_row(img@, y as int, x as int, spec_scan(img@, y as int)),
    {
            let p = img.get_pixel(x, y);
            if p.r != 0 || p.g != 0 || p.b != 0 || p.a != 0 {
                bounds.update(x, y);
            }
            assert(bounds == spec_scan_row(
                img@,
                y as int,
                x as int + 1,
                spec_scan(img@, y as int),
            ));
        }
    }
    let found = bounds.min_x <= bounds.max_x && bounds.min_y <= bounds.max_y;
    proof {
        let h = img@.height as int;
        lemma_scan_inv(img@, h);
        assert(scan_inv(img@, 0, h, bounds));
        if exists|px: int, py: int| scanned(0, h, px, py) && nz(img@, px, py) {
            let (px, py) = choose|px: int, py: int| scanned(0, h, px, py) && nz(img@, px, py);
            assert(bounds.min_x <= px <= bounds.max_x && bounds.min_y <= py <= bounds.max_y);
            assert(found);
            assert forall|x: int, y: int| nz(img@, x, y) implies bounds.min_x <= x <= bounds.max_x
                && bounds.min_y <= y <= bounds.max_y by {
                assert(scanned(0, h, x, y));
            }
            let wy1 = choose|py: int|
                scanned(0, h, bounds.min_x as int, py) && nz(img@, bounds.min_x as int, py);
            assert(nz(img@, bounds.min_x as int, wy1));
            let wy2 = choose|py: int|
                scanned(0, h, bounds.max_x as int, py) && nz(img@, bounds.max_x as int, py);
            assert(nz(img@, bounds.max_x as int, wy2));
            let wx1 = choose|px: int|
                scanned(0, h, px, bounds.min_y as int) && nz(img@, px, bounds.min_y as int);
            assert(nz(img@, wx1, bounds.min_y as int));
            let wx2 = choose|px: int|
                scanned(0, h, px, bounds.max_y as int) && nz(img@, px, bounds.max_y as int);
            assert(nz(img@, wx2, bounds.max_y as int));
        } else {
            assert(bounds == spec_bounds_init());
            assert(!found);
            assert forall|x: int, y: int| img@.in_bounds(x, y) implies !img@.pix(
                x,
                y,
            ).spec_non_zero() by {
                assert(scanned(0, h, x, y));
                assert(!nz(img@, x, y));
            }
        }
    }
    if found {
        Some(bounds)
    } else {
        None
    }
}

/// The rectangle of `spec_bounds` is tight: each of its four edges is
/// attained by some pixel with a non-zero channel.
pub proof fn lemma_bounds_attained(img: ImgSpec, b: Bounds)
    requires
        img.wf(),
        spec_bounds(img) == Some(b),
    ensures
        exists|y: int| nz(img, b.min_x as int, y),
        exists|y: int| nz(img, b.max_x as int, y),
        exists|x: int| nz(img, x, b.min_y as int),
        exists|x: int| nz(img, x, b.max_y as int),
{
    let h = img.height as int;
    lemma_scan_inv(img, h);
    assert(b == spec_scan(img, h));
    if exists|px: int, py: int| scanned(0, h, px, py) && nz(img, px, py) {
        let wy1 = choose|py: int| scanned(0, h, b.min_x as int, py) && nz(img, b.min_x as int, py);
        assert(nz(img, b.min_x as int, wy1));
        let wy2 = choose|py: int| scanned(0, h, b.max_x as int, py) && nz(img, b.max_x as int, py);
        assert(nz(img, b.max_x as int, wy2));
        let wx1 = choose|px: int| scanned(0, h, px, b.min_y as int) && nz(img, px, b.min_y as int);
        assert(nz(img, wx1, b.min_y as int));
        let wx2 = choose|px: int| scanned(0, h, px, b.max_y as int) && nz(img, px, b.max_y as int);
        assert(nz(img, wx2, b.max_y as int));
    } else {
        assert(b == spec_bounds_init());
        assert(false);
    }
}

} // verus!
