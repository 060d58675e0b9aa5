use glitch::eval::{eval, EvalContext};
use glitch::img::Image;
use glitch::rgb::{Rgb, Rgba};
use glitch::token::{EvalError, Token};
use rand::SeedableRng;
use rand::rngs::StdRng;

fn rng() -> StdRng {
    StdRng::seed_from_u64(42)
}

fn solid_image(w: u32, h: u32, p: Rgba) -> Image {
    let mut pixels = Vec::new();
    for _ in 0..(w as usize) * (h as usize) {
        pixels.push(p);
    }
    Image::from_pixels(w, h, pixels).unwrap()
}

fn ctx_at(img: &Image, tokens: Vec<Token>, x: u32, y: u32) -> EvalContext {
    let p = img.get_pixel(x, y);
    EvalContext {
        tokens,
        size: (img.width, img.height),
        rgba: p,
        saved_rgb: [0, 0, 0],
        position: (x, y),
        ignore_state: false,
    }
}

const WHITE: Rgba = Rgba { r: 255, g: 255, b: 255, a: 255 };

#[test]
fn literal_evaluates_to_gray() {
    let img = solid_image(1, 1, WHITE);
    for n in [0u8, 1, 7, 128, 255] {
        let ctx = ctx_at(&img, vec![Token::Num(n)], 0, 0);
        let out = eval(ctx, &img, &mut rng()).unwrap();
        assert_eq!(out, Rgba { r: n, g: n, b: n, a: 255 });
    }
}

#[test]
fn div_and_mod_by_zero_return_dividend() {
    let img = solid_image(1, 1, WHITE);
    for a in [0u8, 1, 100, 255] {
        let ctx = ctx_at(&img, vec![Token::Num(a), Token::Num(0), Token::Div], 0, 0);
        let out = eval(ctx, &img, &mut rng()).unwrap();
        assert_eq!(out, Rgba { r: a, g: a, b: a, a: 255 });
        let ctx = ctx_at(&img, vec![Token::Num(a), Token::Num(0), Token::Mod], 0, 0);
        let out = eval(ctx, &img, &mut rng()).unwrap();
        assert_eq!(out, Rgba { r: a, g: a, b: a, a: 255 });
    }
}

#[test]
fn add_wraps_and_commutes() {
    let img = solid_image(1, 1, WHITE);
    let ctx = ctx_at(&img, vec![Token::Num(250), Token::Num(10), Token::Add], 0, 0);
    let out = eval(ctx, &img, &mut rng()).unwrap();
    assert_eq!(out, Rgba { r: 4, g: 4, b: 4, a: 255 });
    let ctx = ctx_at(&img, vec![Token::Num(10), Token::Num(250), Token::Add], 0, 0);
    let swapped = eval(ctx, &img, &mut rng()).unwrap();
    assert_eq!(out, swapped);
}

#[test]
fn transparent_pixel_short_circuits() {
    let img = solid_image(2, 2, Rgba { r: 9, g: 9, b: 9, a: 0 });
    // even an instruction sequence that would otherwise fail is never run
    for tokens in [
        vec![Token::Num(3)],
        vec![Token::Add],
        vec![],
        vec![Token::Random(5), Token::Char('N'), Token::Mul],
    ] {
        let ctx = ctx_at(&img, tokens, 0, 0);
        let out = eval(ctx, &img, &mut rng()).unwrap();
        assert_eq!(out, Rgba { r: 0, g: 0, b: 0, a: 0 });
    }
}

#[test]
fn stack_underflow_is_reported() {
    let img = solid_image(1, 1, WHITE);
    let ctx = ctx_at(&img, vec![Token::Add], 0, 0);
    assert_eq!(eval(ctx, &img, &mut rng()), Err(EvalError::StackUnderflow));
    let ctx = ctx_at(&img, vec![Token::Num(1), Token::Pow], 0, 0);
    assert_eq!(eval(ctx, &img, &mut rng()), Err(EvalError::StackUnderflow));
    let ctx = ctx_at(&img, vec![], 0, 0);
    assert_eq!(eval(ctx, &img, &mut rng()), Err(EvalError::StackUnderflow));
}

#[test]
fn unknown_instructions_are_reported() {
    let img = solid_image(1, 1, WHITE);
    for tokens in [
        vec![Token::LeftParen],
        vec![Token::RightParen],
        vec![Token::Char('q')],
        vec![Token::RGBColor('x', 3)],
    ] {
        let ctx = ctx_at(&img, tokens, 0, 0);
        assert_eq!(eval(ctx, &img, &mut rng()), Err(EvalError::UnknownInstruction));
    }
}

#[test]
fn channel_literals_set_one_channel() {
    let img = solid_image(1, 1, WHITE);
    let ctx = ctx_at(&img, vec![Token::RGBColor('R', 10)], 0, 0);
    assert_eq!(eval(ctx, &img, &mut rng()).unwrap(), Rgba { r: 10, g: 0, b: 0, a: 255 });
    let ctx = ctx_at(&img, vec![Token::RGBColor('G', 20)], 0, 0);
    assert_eq!(eval(ctx, &img, &mut rng()).unwrap(), Rgba { r: 0, g: 20, b: 0, a: 255 });
    let ctx = ctx_at(&img, vec![Token::RGBColor('B', 30)], 0, 0);
    assert_eq!(eval(ctx, &img, &mut rng()).unwrap(), Rgba { r: 0, g: 0, b: 30, a: 255 });
}

#[test]
fn wrapping_arithmetic_matches_formulas() {
    let img = solid_image(1, 1, WHITE);
    let cases: Vec<(Vec<Token>, u8)> = vec![
        (vec![Token::Num(3), Token::Num(4), Token::Pow], 81),
        (vec![Token::Num(2), Token::Num(9), Token::Pow], 0),
        (vec![Token::Num(2), Token::Num(0), Token::Pow], 1),
        (vec![Token::Num(3), Token::Num(1), Token::BitLShift], 6),
        (vec![Token::Num(255), Token::Num(1), Token::BitLShift], 254),
        (vec![Token::Num(3), Token::Num(9), Token::BitLShift], 6),
        (vec![Token::Num(128), Token::Num(7), Token::BitRShift], 1),
        (vec![Token::Num(100), Token::Num(255), Token::Weight], 100),
        (vec![Token::Num(100), Token::Num(0), Token::Weight], 0),
        (vec![Token::Num(255), Token::Num(128), Token::Weight], 128),
        (vec![Token::Num(5), Token::Num(3), Token::Greater], 255),
        (vec![Token::Num(3), Token::Num(5), Token::Greater], 0),
        (vec![Token::Num(200), Token::Num(100), Token::Mul], 32),
        (vec![Token::Num(10), Token::Num(20), Token::Sub], 246),
        (vec![Token::Num(0b1100), Token::Num(0b1010), Token::BitAnd], 0b1000),
        (vec![Token::Num(0b1100), Token::Num(0b1010), Token::BitOr], 0b1110),
        (vec![Token::Num(0b1100), Token::Num(0b1010), Token::BitXor], 0b0110),
        (vec![Token::Num(0b1100), Token::Num(0b1010), Token::BitAndNot], 0b0100),
    ];
    for (tokens, want) in cases {
        let ctx = ctx_at(&img, tokens.clone(), 0, 0);
        let out = eval(ctx, &img, &mut rng()).unwrap();
        assert_eq!(out, Rgba { r: want, g: want, b: want, a: 255 }, "{:?}", tokens);
    }
}

#[test]
fn luma_of_white() {
    // (2990 * 255 + 5870 * 255 + 722 * 255) / 10000 = 244
    let img = solid_image(1, 1, WHITE);
    let ctx = ctx_at(&img, vec![Token::Char('Y')], 0, 0);
    assert_eq!(eval(ctx, &img, &mut rng()).unwrap(), Rgba { r: 244, g: 244, b: 244, a: 255 });
}

#[test]
fn brightness_scales_channels() {
    // round(200 * 128 / 255) = 100
    let img = solid_image(1, 1, Rgba { r: 200, g: 200, b: 200, a: 255 });
    let ctx = ctx_at(&img, vec![Token::Brightness(128)], 0, 0);
    assert_eq!(eval(ctx, &img, &mut rng()).unwrap(), Rgba { r: 100, g: 100, b: 100, a: 255 });
    // full brightness keeps the pixel
    let ctx = ctx_at(&img, vec![Token::Brightness(255)], 0, 0);
    assert_eq!(eval(ctx, &img, &mut rng()).unwrap(), Rgba { r: 200, g: 200, b: 200, a: 255 });
}

#[test]
fn invert_reads_original_pixel() {
    let img = solid_image(1, 1, Rgba { r: 1, g: 2, b: 3, a: 255 });
    let ctx = ctx_at(&img, vec![Token::Invert], 0, 0);
    assert_eq!(eval(ctx, &img, &mut rng()).unwrap(), Rgba { r: 254, g: 253, b: 252, a: 255 });
}

#[test]
fn saved_pixel_variable() {
    let img = solid_image(1, 1, WHITE);
    let mut ctx = ctx_at(&img, vec![Token::Char('s')], 0, 0);
    ctx.saved_rgb = [11, 22, 33];
    assert_eq!(eval(ctx, &img, &mut rng()).unwrap(), Rgba { r: 11, g: 22, b: 33, a: 255 });
}

#[test]
fn blur_extrema_and_edge_on_uniform_image() {
    let img = solid_image(3, 3, Rgba { r: 90, g: 90, b: 90, a: 255 });
    // at the center every neighbor is 90: blur is 8 * 90 / 9 = 80
    let ctx = ctx_at(&img, vec![Token::Char('b')], 1, 1);
    assert_eq!(eval(ctx, &img, &mut rng()).unwrap(), Rgba { r: 80, g: 80, b: 80, a: 255 });
    // the edge combination of equal values cancels out
    let ctx = ctx_at(&img, vec![Token::Char('e')], 1, 1);
    assert_eq!(eval(ctx, &img, &mut rng()).unwrap(), Rgba { r: 0, g: 0, b: 0, a: 255 });
    let ctx = ctx_at(&img, vec![Token::Char('H')], 1, 1);
    assert_eq!(eval(ctx, &img, &mut rng()).unwrap(), Rgba { r: 90, g: 90, b: 90, a: 255 });
    let ctx = ctx_at(&img, vec![Token::Char('L')], 1, 1);
    assert_eq!(eval(ctx, &img, &mut rng()).unwrap(), Rgba { r: 90, g: 90, b: 90, a: 255 });
    // at the corner, five neighbors fall outside the image and count as zero
    let ctx = ctx_at(&img, vec![Token::Char('b')], 0, 0);
    assert_eq!(eval(ctx, &img, &mut rng()).unwrap(), Rgba { r: 30, g: 30, b: 30, a: 255 });
    let ctx = ctx_at(&img, vec![Token::Char('L')], 0, 0);
    assert_eq!(eval(ctx, &img, &mut rng()).unwrap(), Rgba { r: 0, g: 0, b: 0, a: 255 });
}

#[test]
fn mirror_variables() {
    let a = Rgba { r: 10, g: 11, b: 12, a: 255 };
    let b = Rgba { r: 20, g: 21, b: 22, a: 255 };
    let c = Rgba { r: 30, g: 31, b: 32, a: 255 };
    let d = Rgba { r: 40, g: 41, b: 42, a: 255 };
    // row-major 2x2: (0,0)=a (1,0)=b (0,1)=c (1,1)=d
    let img = Image::from_pixels(2, 2, vec![a, b, c, d]).unwrap();
    let ctx = ctx_at(&img, vec![Token::Char('h')], 0, 0);
    assert_eq!(eval(ctx, &img, &mut rng()).unwrap(), Rgba { r: 20, g: 21, b: 22, a: 255 });
    let ctx = ctx_at(&img, vec![Token::Char('v')], 0, 0);
    assert_eq!(eval(ctx, &img, &mut rng()).unwrap(), Rgba { r: 30, g: 31, b: 32, a: 255 });
    let ctx = ctx_at(&img, vec![Token::Char('d')], 0, 0);
    assert_eq!(eval(ctx, &img, &mut rng()).unwrap(), Rgba { r: 40, g: 41, b: 42, a: 255 });
}

#[test]
fn memoized_variable_coincides_with_itself() {
    // the deterministic stateful variables give the same value on both
    // occurrences, with memoization on or off
    let img = solid_image(3, 3, Rgba { r: 77, g: 88, b: 99, a: 255 });
    for v in ['Y', 'b', 'e', 'H', 'L', 'h', 'v', 'd'] {
        for ignore in [false, true] {
            let mut ctx = ctx_at(
                &img,
                vec![Token::Char(v), Token::Char(v), Token::Sub],
                1,
                1,
            );
            ctx.ignore_state = ignore;
            let out = eval(ctx, &img, &mut rng()).unwrap();
            assert_eq!(out, Rgba { r: 0, g: 0, b: 0, a: 255 }, "variable {}", v);
        }
    }
}

#[test]
fn random_sample_cached_per_radius() {
    // the same radius twice reuses one sample, so the difference is black
    let img = solid_image(4, 4, Rgba { r: 200, g: 150, b: 100, a: 255 });
    for seed in 0u64..20 {
        let mut r = StdRng::seed_from_u64(seed);
        let ctx = ctx_at(
            &img,
            vec![Token::Random(3), Token::Random(3), Token::Sub],
            1,
            1,
        );
        let out = eval(ctx, &img, &mut r).unwrap();
        assert_eq!(out, Rgba { r: 0, g: 0, b: 0, a: 255 }, "seed {}", seed);
    }
}

#[test]
fn random_sample_distinct_radii_draw_separately() {
    // a fixed seed reproduces the same output, and the two radii consume
    // separate draws: the run that samples r3 twice consumes fewer values
    // than the one that samples r3 and r5, so their outputs come from the
    // same deterministic stream either way
    let img = solid_image(4, 4, Rgba { r: 200, g: 150, b: 100, a: 255 });
    let ctx = |tokens: Vec<Token>| ctx_at(&img, tokens, 1, 1);
    let mut r1 = StdRng::seed_from_u64(7);
    let out1 = eval(
        ctx(vec![Token::Random(3), Token::Random(5), Token::Add]),
        &img,
        &mut r1,
    )
    .unwrap();
    let mut r2 = StdRng::seed_from_u64(7);
    let out2 = eval(
        ctx(vec![Token::Random(3), Token::Random(5), Token::Add]),
        &img,
        &mut r2,
    )
    .unwrap();
    assert_eq!(out1, out2);
}

#[test]
fn coordinate_variables_scale_by_dimension() {
    let img = solid_image(4, 2, WHITE);
    // x = 3 of width 4: 255 * 3 / 4 = 191
    let ctx = ctx_at(&img, vec![Token::Char('x')], 3, 0);
    assert_eq!(eval(ctx, &img, &mut rng()).unwrap(), Rgba { r: 191, g: 191, b: 191, a: 255 });
    // y = 1 of height 2: 255 / 2 = 127
    let ctx = ctx_at(&img, vec![Token::Char('y')], 0, 1);
    assert_eq!(eval(ctx, &img, &mut rng()).unwrap(), Rgba { r: 127, g: 127, b: 127, a: 255 });
}

#[test]
fn result_is_top_of_stack() {
    let img = solid_image(1, 1, WHITE);
    // extra operands below the top are ignored
    let ctx = ctx_at(&img, vec![Token::Num(1), Token::Num(2)], 0, 0);
    assert_eq!(eval(ctx, &img, &mut rng()).unwrap(), Rgba { r: 2, g: 2, b: 2, a: 255 });
}

#[test]
fn rgb_constructors() {
    assert_eq!(Rgb::new(1, 2, 3), Rgb { r: 1, g: 2, b: 3 });
    assert_eq!(Rgb::new_red(9), Rgb { r: 9, g: 0, b: 0 });
    assert_eq!(Rgb::new_green(9), Rgb { r: 0, g: 9, b: 0 });
    assert_eq!(Rgb::new_blue(9), Rgb { r: 0, g: 0, b: 9 });
}
