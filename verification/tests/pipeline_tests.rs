use glitch::bounds::find_non_zero_bounds;
use glitch::img::Image;
use glitch::parser::shunting_yard;
use glitch::pipeline::process;
use glitch::rgb::Rgba;
use glitch::token::Token;
use rand::SeedableRng;
use rand::rngs::StdRng;

fn rng() -> StdRng {
    StdRng::seed_from_u64(42)
}

fn solid_image(w: u32, h: u32, p: Rgba) -> Image {
    let mut pixels = Vec::new();
    for _ in 0..(w as usize) * (h as usize) {
        pixels.push(p);
    }
    Image::from_pixels(w, h, pixels).unwrap()
}

fn compiled(exprs: &[&str]) -> Vec<(String, Vec<Token>)> {
    exprs
        .iter()
        .map(|e| (e.to_string(), shunting_yard(e).unwrap()))
        .collect()
}

const WHITE: Rgba = Rgba { r: 255, g: 255, b: 255, a: 255 };
const ZERO: Rgba = Rgba { r: 0, g: 0, b: 0, a: 0 };

#[test]
fn bounds_of_all_zero_image() {
    let img = solid_image(5, 4, ZERO);
    assert!(find_non_zero_bounds(&img).is_none());
}

#[test]
fn bounds_of_single_pixel() {
    let mut pixels = vec![ZERO; 20];
    // pixel (2, 3) of a 5x4 image
    pixels[3 * 5 + 2] = Rgba { r: 0, g: 0, b: 1, a: 0 };
    let img = Image::from_pixels(5, 4, pixels).unwrap();
    let b = find_non_zero_bounds(&img).unwrap();
    assert_eq!(b.min_x(), 2);
    assert_eq!(b.max_x(), 2);
    assert_eq!(b.min_y(), 3);
    assert_eq!(b.max_y(), 3);
}

#[test]
fn bounds_are_tight_around_two_pixels() {
    let mut pixels = vec![ZERO; 30];
    // pixels (1, 0) and (4, 2) of a 6x5 image
    pixels[0 * 6 + 1] = WHITE;
    pixels[2 * 6 + 4] = Rgba { r: 0, g: 0, b: 0, a: 9 };
    let img = Image::from_pixels(6, 5, pixels).unwrap();
    let b = find_non_zero_bounds(&img).unwrap();
    assert_eq!((b.min_x(), b.max_x(), b.min_y(), b.max_y()), (1, 4, 0, 2));
}

#[test]
fn current_pixel_expression_keeps_image() {
    let img = solid_image(2, 2, WHITE);
    let out = process(img, &compiled(&["c"]), false, &mut rng()).unwrap();
    for y in 0..2 {
        for x in 0..2 {
            assert_eq!(out.get_pixel(x, y), WHITE);
        }
    }
}

#[test]
fn invert_expression_blackens_white_image() {
    let img = solid_image(2, 2, WHITE);
    let out = process(img, &compiled(&["i"]), false, &mut rng()).unwrap();
    for y in 0..2 {
        for x in 0..2 {
            assert_eq!(out.get_pixel(x, y), Rgba { r: 0, g: 0, b: 0, a: 255 });
        }
    }
}

#[test]
fn x_expression_paints_horizontal_gradient() {
    let img = solid_image(2, 2, WHITE);
    let out = process(img, &compiled(&["x"]), false, &mut rng()).unwrap();
    for y in 0..2 {
        // 255 * 0 / 2 = 0 and 255 * 1 / 2 = 127
        assert_eq!(out.get_pixel(0, y), Rgba { r: 0, g: 0, b: 0, a: 255 });
        assert_eq!(out.get_pixel(1, y), Rgba { r: 127, g: 127, b: 127, a: 255 });
    }
}

#[test]
fn all_zero_image_passes_through() {
    let img = solid_image(3, 3, ZERO);
    let out = process(img, &compiled(&["i"]), false, &mut rng()).unwrap();
    for y in 0..3 {
        for x in 0..3 {
            assert_eq!(out.get_pixel(x, y), ZERO);
        }
    }
}

#[test]
fn saved_pixel_carries_in_scan_order() {
    // with the expression `s` every pixel takes the previous output, which
    // starts black: the whole image turns black (alpha kept)
    let img = solid_image(2, 2, WHITE);
    let out = process(img, &compiled(&["s"]), false, &mut rng()).unwrap();
    for y in 0..2 {
        for x in 0..2 {
            assert_eq!(out.get_pixel(x, y), Rgba { r: 0, g: 0, b: 0, a: 255 });
        }
    }
}

#[test]
fn saved_pixel_sees_previous_column_major_output() {
    // `c+s` walks column-major: (0,0) then (0,1) then (1,0) then (1,1),
    // accumulating 10 at every step
    let img = solid_image(2, 2, Rgba { r: 10, g: 10, b: 10, a: 255 });
    let out = process(img, &compiled(&["c+s"]), false, &mut rng()).unwrap();
    assert_eq!(out.get_pixel(0, 0), Rgba { r: 10, g: 10, b: 10, a: 255 });
    assert_eq!(out.get_pixel(0, 1), Rgba { r: 20, g: 20, b: 20, a: 255 });
    assert_eq!(out.get_pixel(1, 0), Rgba { r: 30, g: 30, b: 30, a: 255 });
    assert_eq!(out.get_pixel(1, 1), Rgba { r: 40, g: 40, b: 40, a: 255 });
}

#[test]
fn passes_apply_sequentially() {
    // first halve via a shift, then add one: (255 >> 1) + 1 = 128
    let img = solid_image(2, 2, WHITE);
    let out = process(img, &compiled(&["c>1", "c+1"]), false, &mut rng()).unwrap();
    for y in 0..2 {
        for x in 0..2 {
            assert_eq!(out.get_pixel(x, y), Rgba { r: 128, g: 128, b: 128, a: 255 });
        }
    }
}

#[test]
fn failing_expression_aborts_the_run() {
    let img = solid_image(2, 2, WHITE);
    let exprs = vec![("+".to_string(), vec![Token::Add])];
    assert!(process(img, &exprs, false, &mut rng()).is_err());
}

#[test]
fn transparent_border_stays_transparent() {
    // a transparent border around one opaque pixel: the border pixels stay
    // fully transparent black and the opaque pixel is inverted
    let mut pixels = vec![ZERO; 9];
    pixels[1 * 3 + 1] = Rgba { r: 200, g: 100, b: 50, a: 255 };
    let img = Image::from_pixels(3, 3, pixels).unwrap();
    let out = process(img, &compiled(&["i"]), false, &mut rng()).unwrap();
    for y in 0..3 {
        for x in 0..3 {
            if x == 1 && y == 1 {
                assert_eq!(out.get_pixel(x, y), Rgba { r: 55, g: 155, b: 205, a: 255 });
            } else {
                assert_eq!(out.get_pixel(x, y), ZERO);
            }
        }
    }
}

#[test]
fn seed_reproduces_output() {
    let make = || solid_image(4, 4, Rgba { r: 120, g: 130, b: 140, a: 255 });
    let exprs = compiled(&["r2+N?t"]);
    let mut r1 = StdRng::seed_from_u64(99);
    let out1 = process(make(), &exprs, false, &mut r1).unwrap();
    let mut r2 = StdRng::seed_from_u64(99);
    let out2 = process(make(), &exprs, false, &mut r2).unwrap();
    for y in 0..4 {
        for x in 0..4 {
            assert_eq!(out1.get_pixel(x, y), out2.get_pixel(x, y));
        }
    }
}
