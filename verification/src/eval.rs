use vstd::prelude::*;
use rand::rngs::StdRng;
use crate::img::{Image, ImgSpec};
use crate::ops::{
    add_ch, binop_ch, binop_channel, binop_rgb, bright_ch, exec_bright, exec_luma,
    exec_three_rule, invert_ch, is_binop, luma_ch, max2, min2, sub_ch, three_rule, wrap_add,
    wrap_sub,
};
use crate::rgb::{Rgb, Rgba};
use crate::rng::rand_range;
use crate::token::{EvalError, Token};

verus! {

// --- the evaluation context, as plain values and as its model ---

/// The model of one pixel's evaluation context.
pub ghost struct CtxSpec {
    pub width: u32,
    pub height: u32,
    pub rgba: Rgba,
    pub saved: Rgb,
    pub x: u32,
    pub y: u32,
    pub ignore_state: bool,
}

/// Everything one evaluation of an instruction sequence sees: the sequence,
/// the image dimensions, the pixel's own color and position, the carried
/// previous output, and whether memoization is disabled.
#[derive(Debug)]
pub struct EvalContext {
    pub tokens: Vec<Token>,
    pub size: (u32, u32),
    pub rgba: Rgba,
    pub saved_rgb: [u8; 3],
    pub position: (u32, u32),
    pub ignore_state: bool,
}

impl EvalContext {
    pub open spec fn ctx(self) -> CtxSpec {
        CtxSpec {
            width: self.size.0,
            height: self.size.1,
            rgba: self.rgba,
            saved: Rgb { r: self.saved_rgb[0], g: self.saved_rgb[1], b: self.saved_rgb[2] },
            x: self.position.0,
            y: self.position.1,
            ignore_state: self.ignore_state,
        }
    }

    /// The context fits the image it is evaluated against and names a pixel
    /// inside it.
    pub open spec fn wf_for(self, img: ImgSpec) -> bool {
        &&& img.wf()
        &&& self.size.0 == img.width
        &&& self.size.1 == img.height
        &&& self.position.0 < self.size.0
        &&& self.position.1 < self.size.1
    }
}

// --- random draws ---

/// The `i`-th value of a draw log; zero past its end, so that a log is only
/// meaningful together with `VmState::ok`, which checks consumption.
pub open spec fn draw_at(draws: Seq<int>, i: int) -> int {
    if 0 <= i < draws.len() {
        draws[i]
    } else {
        0
    }
}

/// The `n` draws starting at `i` all lie in `lo ..= hi`.
pub open spec fn in_range(draws: Seq<int>, i: int, n: int, lo: int, hi: int) -> bool {
    forall|k: int| i <= k < i + n ==> lo <= #[trigger] draw_at(draws, k) <= hi
}

// --- sampling pixels at offsets ---

/// The pixel at `(px, py)`, or fully transparent black outside the image.
pub open spec fn sample_at(img: ImgSpec, px: int, py: int) -> Rgba {
    if img.in_bounds(px, py) {
        img.pix(px, py)
    } else {
        Rgba { r: 0, g: 0, b: 0, a: 0 }
    }
}

/// Channel `ch` of the pixel offset by `(dx, dy)` from `(x, y)`.
pub open spec fn spec_sample_ch(img: ImgSpec, x: int, y: int, dx: int, dy: int, ch: int) -> u8 {
    sample_at(img, x + dx, y + dy).spec_rgb().spec_channel(ch)
}

/// The color sampled by six consecutive draws (one offset pair per channel):
/// each channel reads its own channel of the pixel its offset lands on.
pub open spec fn spec_sample_rgb(img: ImgSpec, x: int, y: int, draws: Seq<int>, i: int) -> Rgb {
    Rgb {
        r: spec_sample_ch(img, x, y, draw_at(draws, i), draw_at(draws, i + 1), 0),
        g: spec_sample_ch(img, x, y, draw_at(draws, i + 2), draw_at(draws, i + 3), 1),
        b: spec_sample_ch(img, x, y, draw_at(draws, i + 4), draw_at(draws, i + 5), 2),
    }
}

// --- the 3x3 neighborhood ---

/// The neighbor of `(x, y)` at offset `(dx, dy)`: the context's own color at
/// the center, black outside the image, the image pixel otherwise.
pub open spec fn spec_nb(
    img: ImgSpec,
    x: int,
    y: int,
    center: Rgb,
    dx: int,
    dy: int,
) -> Rgb {
    if dx == 0 && dy == 0 {
        center
    } else {
        sample_at(img, x + dx, y + dy).spec_rgb()
    }
}

/// Cell `k` of the 3x3 neighborhood, walked x-outer: cell 4 is the center.
pub open spec fn spec_cell(img: ImgSpec, x: int, y: int, center: Rgb, k: int) -> Rgb {
    spec_nb(img, x, y, center, k / 3 - 1, k % 3 - 1)
}

/// The edge-emphasis combination `n8 - n0 + n5 - n3 + n7 - n1 + n6 - n2` of
/// the eight non-center neighbors, in wrapping 8-bit arithmetic.
pub open spec fn edge_chain(n0: u8, n1: u8, n2: u8, n3: u8, n5: u8, n6: u8, n7: u8, n8: u8) -> u8 {
    sub_ch(add_ch(sub_ch(add_ch(sub_ch(add_ch(sub_ch(n8, n0), n5), n3), n7), n1), n6), n2)
}

/// The blur average: the eight non-center neighbors summed, divided by nine.
pub open spec fn blur_chain(n0: u8, n1: u8, n2: u8, n3: u8, n5: u8, n6: u8, n7: u8, n8: u8) -> u8 {
    ((n0 + n1 + n2 + n3 + n5 + n6 + n7 + n8) / 9) as u8
}

pub open spec fn max_chain(n0: u8, n1: u8, n2: u8, n3: u8, n5: u8, n6: u8, n7: u8, n8: u8) -> u8 {
    max2(max2(max2(max2(max2(max2(max2(n0, n1), n2), n3), n5), n6), n7), n8)
}

pub open spec fn min_chain(n0: u8, n1: u8, n2: u8, n3: u8, n5: u8, n6: u8, n7: u8, n8: u8) -> u8 {
    min2(min2(min2(min2(min2(min2(min2(n0, n1), n2), n3), n5), n6), n7), n8)
}

/// Channel `ch` of neighborhood cell `k`.
pub open spec fn cell_ch(img: ImgSpec, c: CtxSpec, k: int, ch: int) -> u8 {
    spec_cell(img, c.x as int, c.y as int, c.rgba.spec_rgb(), k).spec_channel(ch)
}

pub open spec fn spec_edge_ch(img: ImgSpec, c: CtxSpec, ch: int) -> u8 {
    edge_chain(
        cell_ch(img, c, 0, ch),
        cell_ch(img, c, 1, ch),
        cell_ch(img, c, 2, ch),
        cell_ch(img, c, 3, ch),
        cell_ch(img, c, 5, ch),
        cell_ch(img, c, 6, ch),
        cell_ch(img, c, 7, ch),
        cell_ch(img, c, 8, ch),
    )
}

pub open spec fn spec_edge(img: ImgSpec, c: CtxSpec) -> Rgb {
    Rgb { r: spec_edge_ch(img, c, 0), g: spec_edge_ch(img, c, 1), b: spec_edge_ch(img, c, 2) }
}

pub open spec fn spec_blur_ch(img: ImgSpec, c: CtxSpec, ch: int) -> u8 {
    blur_chain(
        cell_ch(img, c, 0, ch),
        cell_ch(img, c, 1, ch),
        cell_ch(img, c, 2, ch),
        cell_ch(img, c, 3, ch),
        cell_ch(img, c, 5, ch),
        cell_ch(img, c, 6, ch),
        cell_ch(img, c, 7, ch),
        cell_ch(img, c, 8, ch),
    )
}

pub open spec fn spec_blur(img: ImgSpec, c: CtxSpec) -> Rgb {
    Rgb { r: spec_blur_ch(img, c, 0), g: spec_blur_ch(img, c, 1), b: spec_blur_ch(img, c, 2) }
}

pub open spec fn spec_high_ch(img: ImgSpec, c: CtxSpec, ch: int) -> u8 {
    max_chain(
        cell_ch(img, c, 0, ch),
        cell_ch(img, c, 1, ch),
        cell_ch(img, c, 2, ch),
        cell_ch(img, c, 3, ch),
        cell_ch(img, c, 5, ch),
        cell_ch(img, c, 6, ch),
        cell_ch(img, c, 7, ch),
        cell_ch(img, c, 8, ch),
    )
}

pub open spec fn spec_high(img: ImgSpec, c: CtxSpec) -> Rgb {
    Rgb { r: spec_high_ch(img, c, 0), g: spec_high_ch(img, c, 1), b: spec_high_ch(img, c, 2) }
}

pub open spec fn spec_low_ch(img: ImgSpec, c: CtxSpec, ch: int) -> u8 {
    min_chain(
        cell_ch(img, c, 0, ch),
        cell_ch(img, c, 1, ch),
        cell_ch(img, c, 2, ch),
        cell_ch(img, c, 3, ch),
        cell_ch(img, c, 5, ch),
        cell_ch(img, c, 6, ch),
        cell_ch(img, c, 7, ch),
        cell_ch(img, c, 8, ch),
    )
}

pub open spec fn spec_low(img: ImgSpec, c: CtxSpec) -> Rgb {
    Rgb { r: spec_low_ch(img, c, 0), g: spec_low_ch(img, c, 1), b: spec_low_ch(img, c, 2) }
}

// --- the mirrored pixels ---

pub open spec fn spec_mirror_h(img: ImgSpec, c: CtxSpec) -> Rgb {
    img.pix(c.width - 1 - c.x, c.y as int).spec_rgb()
}

pub open spec fn spec_mirror_v(img: ImgSpec, c: CtxSpec) -> Rgb {
    img.pix(c.x as int, c.height - 1 - c.y).spec_rgb()
}

pub open spec fn spec_mirror_d(img: ImgSpec, c: CtxSpec) -> Rgb {
    img.pix(c.width - 1 - c.x, c.height - 1 - c.y).spec_rgb()
}

pub open spec fn gray(n: u8) -> Rgb {
    Rgb { r: n, g: n, b: n }
}

// --- the VM's state and one step of it ---

/// The per-evaluation memo cache: one slot per stateful variable, and one
/// slot per random-sample radius.
pub ghost struct MemoModel {
    pub v_y: Option<Rgb>,
    pub v_b: Option<Rgb>,
    pub v_e: Option<Rgb>,
    pub v_t: Option<Rgb>,
    pub v_g: Option<Rgb>,
    pub v_h: Option<Rgb>,
    pub v_v: Option<Rgb>,
    pub v_d: Option<Rgb>,
    pub v_high: Option<Rgb>,
    pub v_low: Option<Rgb>,
    pub v_r: Seq<Option<Rgb>>,
}

pub open spec fn memo_init() -> MemoModel {
    MemoModel {
        v_y: None,
        v_b: None,
        v_e: None,
        v_t: None,
        v_g: None,
        v_h: None,
        v_v: None,
        v_d: None,
        v_high: None,
        v_low: None,
        v_r: Seq::new(256, |i: int| None),
    }
}

/// The VM mid-run: the operand stack, the memo cache, how many draws were
/// consumed, whether every consumed draw lay in its stated range, and the
/// first error, which freezes the state.
pub ghost struct VmState {
    pub stack: Seq<Rgb>,
    pub memo: MemoModel,
    pub di: int,
    pub ok: bool,
    pub err: Option<EvalError>,
}

pub open spec fn vm_init() -> VmState {
    VmState { stack: Seq::empty(), memo: memo_init(), di: 0, ok: true, err: None }
}

pub open spec fn vm_push(st: VmState, v: Rgb) -> VmState {
    VmState { stack: st.stack.push(v), ..st }
}

pub open spec fn vm_err(st: VmState, e: EvalError) -> VmState {
    VmState { err: Some(e), ..st }
}

/// One stateful variable consulted through its memo slot: reuse the slot when
/// it is filled, else compute `v` and fill it unless memoization is off.
pub open spec fn vm_memo(st: VmState, slot: Option<Rgb>, v: Rgb, memo2: MemoModel) -> VmState {
    match slot {
        Some(cached) => vm_push(st, cached),
        None => VmState { stack: st.stack.push(v), memo: memo2, ..st },
    }
}

/// The effect of the variable character `ch` on the VM.
#[verifier::opaque]
pub open spec fn spec_step_var(
    st: VmState,
    ch: char,
    c: CtxSpec,
    img: ImgSpec,
    draws: Seq<int>,
) -> VmState {
    match ch {
        'c' => {
        vm_push(st, c.rgba.spec_rgb())
    },
        'Y' => {
        // the luma slot is filled even when memoization is off
        let v = gray(luma_ch(c.rgba.r, c.rgba.g, c.rgba.b));
        vm_memo(st, st.memo.v_y, v, MemoModel { v_y: Some(v), ..st.memo })
    },
        's' => {
        vm_push(st, c.saved)
    },
        'x' => {
        vm_push(st, gray(three_rule(c.x, c.width)))
    },
        'y' => {
        vm_push(st, gray(three_rule(c.y, c.height)))
    },
        't' => {
        match st.memo.v_t {
            Some(v) => vm_push(st, v),
            None => {
                let rgb = spec_sample_rgb(img, c.x as int, c.y as int, draws, st.di);
                VmState {
                    stack: st.stack.push(rgb),
                    memo: if c.ignore_state {
                        st.memo
                    } else {
                        MemoModel { v_t: Some(rgb), ..st.memo }
                    },
                    di: st.di + 6,
                    ok: st.ok && in_range(draws, st.di, 6, -2, 2),
                    err: None,
                }
            },
        }
    },
        'g' => {
        match st.memo.v_g {
            Some(v) => vm_push(st, v),
            None => {
                let rgb = spec_sample_rgb(img, c.x as int, c.y as int, draws, st.di);
                VmState {
                    stack: st.stack.push(rgb),
                    memo: if c.ignore_state {
                        st.memo
                    } else {
                        MemoModel { v_g: Some(rgb), ..st.memo }
                    },
                    di: st.di + 6,
                    // both offset axes draw from 0 ..= width
                    ok: st.ok && in_range(draws, st.di, 6, 0, c.width as int),
                    err: None,
                }
            },
        }
    },
        'e' => {
        // the edge slot, like luma, is filled even when memoization is off
        let v = spec_edge(img, c);
        vm_memo(st, st.memo.v_e, v, MemoModel { v_e: Some(v), ..st.memo })
    },
        'b' => {
        let v = spec_blur(img, c);
        vm_memo(
            st,
            st.memo.v_b,
            v,
            if c.ignore_state {
                st.memo
            } else {
                MemoModel { v_b: Some(v), ..st.memo }
            },
        )
    },
        'H' => {
        let v = spec_high(img, c);
        vm_memo(
            st,
            st.memo.v_high,
            v,
            if c.ignore_state {
                st.memo
            } else {
                MemoModel { v_high: Some(v), ..st.memo }
            },
        )
    },
        'L' => {
        let v = spec_low(img, c);
        vm_memo(
            st,
            st.memo.v_low,
            v,
            if c.ignore_state {
                st.memo
            } else {
                MemoModel { v_low: Some(v), ..st.memo }
            },
        )
    },
        'N' => {
        // never memoized: every occurrence draws three fresh channel values
        let v = Rgb {
            r: draw_at(draws, st.di) as u8,
            g: draw_at(draws, st.di + 1) as u8,
            b: draw_at(draws, st.di + 2) as u8,
        };
        VmState {
            stack: st.stack.push(v),
            memo: st.memo,
            di: st.di + 3,
            ok: st.ok && in_range(draws, st.di, 3, 0, 255),
            err: None,
        }
    },
        'h' => {
        let v = spec_mirror_h(img, c);
        vm_memo(
            st,
            st.memo.v_h,
            v,
            if c.ignore_state {
                st.memo
            } else {
                MemoModel { v_h: Some(v), ..st.memo }
            },
        )
    },
        'v' => {
        let v = spec_mirror_v(img, c);
        vm_memo(
            st,
            st.memo.v_v,
            v,
            if c.ignore_state {
                st.memo
            } else {
                MemoModel { v_v: Some(v), ..st.memo }
            },
        )
    },
        'd' => {
        let v = spec_mirror_d(img, c);
        vm_memo(
            st,
            st.memo.v_d,
            v,
            if c.ignore_state {
                st.memo
            } else {
                MemoModel { v_d: Some(v), ..st.memo }
            },
        )
        },
        _ => vm_err(st, EvalError::UnknownInstruction),
    }
}

/// One instruction applied to the VM. An error state absorbs every further
/// step.
#[verifier::opaque]
pub open spec fn spec_step(
    st: VmState,
    tok: Token,
    c: CtxSpec,
    img: ImgSpec,
    draws: Seq<int>,
) -> VmState {
    if st.err is Some {
        st
    } else {
        match tok {
            Token::Num(n) => vm_push(st, gray(n)),
            Token::Random(num) => {
                match st.memo.v_r[num as int] {
                    Some(v) => vm_push(st, v),
                    None => {
                        let rgb = spec_sample_rgb(img, c.x as int, c.y as int, draws, st.di);
                        VmState {
                            stack: st.stack.push(rgb),
                            memo: if c.ignore_state {
                                st.memo
                            } else {
                                MemoModel {
                                    v_r: st.memo.v_r.update(num as int, Some(rgb)),
                                    ..st.memo
                                }
                            },
                            di: st.di + 6,
                            ok: st.ok && in_range(draws, st.di, 6, -(num as int), num as int),
                            err: None,
                        }
                    },
                }
            },
            Token::RGBColor(ch, v) => {
                if ch == 'R' {
                    vm_push(st, Rgb { r: v, g: 0, b: 0 })
                } else if ch == 'G' {
                    vm_push(st, Rgb { r: 0, g: v, b: 0 })
                } else if ch == 'B' {
                    vm_push(st, Rgb { r: 0, g: 0, b: v })
                } else {
                    vm_err(st, EvalError::UnknownInstruction)
                }
            },
            Token::Brightness(v) => {
                // reads the original input pixel, not any computed value
                let p = img.pix(c.x as int, c.y as int).spec_rgb();
                vm_push(
                    st,
                    Rgb { r: bright_ch(p.r, v), g: bright_ch(p.g, v), b: bright_ch(p.b, v) },
                )
            },
            Token::Invert => {
                let p = img.pix(c.x as int, c.y as int).spec_rgb();
                vm_push(st, Rgb { r: invert_ch(p.r), g: invert_ch(p.g), b: invert_ch(p.b) })
            },
            Token::Char(ch) => spec_step_var(st, ch, c, img, draws),
            Token::LeftParen | Token::RightParen => vm_err(st, EvalError::UnknownInstruction),
            _ => {
                if st.stack.len() < 2 {
                    vm_err(st, EvalError::StackUnderflow)
                } else {
                    let b = st.stack.last();
                    let a = st.stack[st.stack.len() - 2];
                    VmState {
                        stack: st.stack.take(st.stack.len() - 2).push(binop_rgb(tok, a, b)),
                        ..st
                    }
                }
            },
        }
    }
}

/// The VM run over a whole instruction sequence, from the initial state.
pub open spec fn spec_run(
    tokens: Seq<Token>,
    c: CtxSpec,
    img: ImgSpec,
    draws: Seq<int>,
) -> VmState
    decreases tokens.len(),
{
    if tokens.len() == 0 {
        vm_init()
    } else {
        spec_step(spec_run(tokens.drop_last(), c, img, draws), tokens.last(), c, img, draws)
    }
}

/// What evaluating an instruction sequence on one pixel yields, given the
/// values the random source produced. A fully transparent pixel
/// short-circuits to fully transparent black; otherwise the run's single
/// remaining requirement is a non-empty stack, whose top, under the pixel's
/// own alpha, is the result.
pub open spec fn spec_eval(
    tokens: Seq<Token>,
    c: CtxSpec,
    img: ImgSpec,
    draws: Seq<int>,
) -> Result<Rgba, EvalError> {
    if c.rgba.a == 0 {
        Ok(Rgba { r: 0, g: 0, b: 0, a: 0 })
    } else {
        let st = spec_run(tokens, c, img, draws);
        match st.err {
            Some(e) => Err(e),
            None => {
                if st.stack.len() == 0 {
                    Err(EvalError::StackUnderflow)
                } else {
                    let top = st.stack.last();
                    Ok(Rgba { r: top.r, g: top.g, b: top.b, a: c.rgba.a })
                }
            },
        }
    }
}

/// How many draws the evaluation consumes.
pub open spec fn spec_draws_used(
    tokens: Seq<Token>,
    c: CtxSpec,
    img: ImgSpec,
    draws: Seq<int>,
) -> int {
    if c.rgba.a == 0 {
        0
    } else {
        spec_run(tokens, c, img, draws).di
    }
}

/// A draw log accounts exactly for one evaluation: every drawn value lies in
/// the range its instruction asked of the random source, and the log holds
/// nothing else.
pub open spec fn eval_draws_ok(
    tokens: Seq<Token>,
    c: CtxSpec,
    img: ImgSpec,
    draws: Seq<int>,
) -> bool {
    &&& draws.len() == spec_draws_used(tokens, c, img, draws)
    &&& (c.rgba.a != 0 ==> spec_run(tokens, c, img, draws).ok)
}

// --- lemmas about the run ---

/// Extending a run by one instruction is one step on its end state.
pub proof fn lemma_run_snoc(
    tokens: Seq<Token>,
    c: CtxSpec,
    img: ImgSpec,
    draws: Seq<int>,
    i: int,
)
    requires
        0 <= i < tokens.len(),
    ensures
        spec_run(tokens.take(i + 1), c, img, draws) == spec_step(
            spec_run(tokens.take(i), c, img, draws),
            tokens[i],
            c,
            img,
            draws,
        ),
{
    let s = tokens.take(i + 1);
    assert(s.drop_last() =~= tokens.take(i));
    assert(s.last() == tokens[i]);
}

/// One step never hands draws back.
proof fn lemma_step_di_mono(st: VmState, tok: Token, c: CtxSpec, img: ImgSpec, draws: Seq<int>)
    ensures
        spec_step(st, tok, c, img, draws).di >= st.di,
{
    reveal(spec_step);
    reveal(spec_step_var);
}

/// A run consumes at least as many draws as the run of any prefix.
proof fn lemma_run_di_mono(tokens: Seq<Token>, c: CtxSpec, img: ImgSpec, draws: Seq<int>)
    ensures
        tokens.len() > 0 ==> spec_run(tokens.drop_last(), c, img, draws).di <= spec_run(
            tokens,
            c,
            img,
            draws,
        ).di,
{
    if tokens.len() > 0 {
        lemma_step_di_mono(
            spec_run(tokens.drop_last(), c, img, draws),
            tokens.last(),
            c,
            img,
            draws,
        );
    }
}

/// Two draw logs that agree on every consumed position drive the run to the
/// same state.
pub proof fn lemma_run_agree(
    tokens: Seq<Token>,
    c: CtxSpec,
    img: ImgSpec,
    d1: Seq<int>,
    d2: Seq<int>,
)
    requires
        forall|k: int|
            0 <= k < spec_run(tokens, c, img, d1).di ==> draw_at(d1, k) == draw_at(d2, k),
    ensures
        spec_run(tokens, c, img, d1) == spec_run(tokens, c, img, d2),
    decreases tokens.len(),
{
    reveal(spec_step);
    reveal(spec_step_var);
    if tokens.len() > 0 {
        lemma_run_di_mono(tokens, c, img, d1);
        lemma_run_agree(tokens.drop_last(), c, img, d1, d2);
        let st = spec_run(tokens.drop_last(), c, img, d1);
        let tok = tokens.last();
        let lo = st.di;
        let hi = spec_run(tokens, c, img, d1).di;
        assert(forall|k: int| lo <= k < hi ==> draw_at(d1, k) == draw_at(d2, k));
        if st.err is None {
            assert(spec_sample_rgb(img, c.x as int, c.y as int, d1, st.di) == spec_sample_rgb(
                img,
                c.x as int,
                c.y as int,
                d2,
                st.di,
            ) || hi < st.di + 6 || st.di < lo);
            assert(spec_step(st, tok, c, img, d1) == spec_step(st, tok, c, img, d2));
        }
    }
}

/// Once a prefix of the run errs, the whole run is that prefix's state.
pub proof fn lemma_run_prefix_err(
    tokens: Seq<Token>,
    c: CtxSpec,
    img: ImgSpec,
    draws: Seq<int>,
    i: int,
)
    requires
        0 <= i <= tokens.len(),
        spec_run(tokens.take(i), c, img, draws).err is Some,
    ensures
        spec_run(tokens, c, img, draws) == spec_run(tokens.take(i), c, img, draws),
    decreases tokens.len() - i,
{
    reveal(spec_step);
    if i < tokens.len() {
        lemma_run_snoc(tokens, c, img, draws, i);
        lemma_run_prefix_err(tokens, c, img, draws, i + 1);
    } else {
        assert(tokens.take(i) =~= tokens);
    }
}

// --- the executable memo cache ---

/// The per-evaluation memo cache as plain values; `v_r` holds one slot per
/// possible radius.
pub struct MemoCache {
    pub v_y: Option<Rgb>,
    pub v_b: Option<Rgb>,
    pub v_e: Option<Rgb>,
    pub v_t: Option<Rgb>,
    pub v_g: Option<Rgb>,
    pub v_h: Option<Rgb>,
    pub v_v: Option<Rgb>,
    pub v_d: Option<Rgb>,
    pub v_high: Option<Rgb>,
    pub v_low: Option<Rgb>,
    pub v_r: Vec<Option<Rgb>>,
}

impl View for MemoCache {
    type V = MemoModel;

    open spec fn view(&self) -> MemoModel {
        MemoModel {
            v_y: self.v_y,
            v_b: self.v_b,
            v_e: self.v_e,
            v_t: self.v_t,
            v_g: self.v_g,
            v_h: self.v_h,
            v_v: self.v_v,
            v_d: self.v_d,
            v_high: self.v_high,
            v_low: self.v_low,
            v_r: self.v_r@,
        }
    }
}

impl MemoCache {
    pub open spec fn wf(self) -> bool {
        self.v_r@.len() == 256
    }

    fn new() -> (m: MemoCache)
        ensures
            m@ == memo_init(),
            m.wf(),
    {
        let mut v_r: Vec<Option<Rgb>> = Vec::new();
        let mut k: usize = 0;
        while k < 256
            invariant
                k <= 256,
                v_r@.len() == k,
                forall|i: int| 0 <= i < k ==> v_r@[i] is None,
            decreases 256 - k,
        {
            v_r.push(None);
            k = k + 1;
        }
        let m = MemoCache {
            v_y: None,
            v_b: None,
            v_e: None,
            v_t: None,
            v_g: None,
            v_h: None,
            v_v: None,
            v_d: None,
            v_high: None,
            v_low: None,
            v_r,
        };
        proof {
            assert(m@.v_r =~= memo_init().v_r);
        }
        m
    }

    fn r_get(&self, num: u8) -> (r: Option<Rgb>)
        requires
            self.wf(),
        ensures
            r == self@.v_r[num as int],
    {
        self.v_r[num as usize]
    }

    fn r_set(&mut self, num: u8, v: Rgb)
        requires
            old(self).wf(),
        ensures
            final(self)@ == (MemoModel {
                v_r: old(self)@.v_r.update(num as int, Some(v)),
                ..old(self)@
            }),
            final(self).wf(),
    {
        self.v_r[num as usize] = Some(v);
    }
}

// --- executable sampling ---

/// Draws three offset pairs, each coordinate uniform in `min ..= max`; the
/// random source is consulted in the order the pairs are returned.
pub fn gen_random_position(min: i64, max: i64, rng: &mut StdRng) -> (positions: Vec<(i64, i64)>)
    requires
        min <= max,
    ensures
        positions@.len() == 3,
        forall|k: int|
            0 <= k < 3 ==> min <= (#[trigger] positions@[k]).0 <= max && min <= positions@[k].1
                <= max,
{
    let mut positions: Vec<(i64, i64)> = Vec::new();
    let mut i: usize = 0;
    while i < 3
        invariant
            min <= max,
            i <= 3,
            positions@.len() == i,
            forall|k: int|
                0 <= k < i ==> min <= (#[trigger] positions@[k]).0 <= max && min
                    <= positions@[k].1 <= max,
        decreases 3 - i,
    {
        let a = rand_range(rng, min, max);
        let b = rand_range(rng, min, max);
        positions.push((a, b));
        i = i + 1;
    }
    positions
}

/// Channel `ch` of the pixel offset by `(dx, dy)`, zero outside the image.
fn sample_channel(input: &Image, x: u32, y: u32, dx: i64, dy: i64, ch: u8) -> (v: u8)
    requires
        input@.wf(),
        -0x1_0000_0000 <= dx <= 0x1_0000_0000,
        -0x1_0000_0000 <= dy <= 0x1_0000_0000,
        ch < 3,
    ensures
        v == spec_sample_ch(input@, x as int, y as int, dx as int, dy as int, ch as int),
{
    let px = x as i64 + dx;
    let py = y as i64 + dy;
    if px >= 0 && px < input.width as i64 && py >= 0 && py < input.height as i64 {
        let p = input.get_pixel(px as u32, py as u32);
        if ch == 0 {
            p.r
        } else if ch == 1 {
            p.g
        } else {
            p.b
        }
    } else {
        0
    }
}

/// One color from three offset pairs: each channel reads its own channel of
/// the pixel its offset lands on.
fn rgb_from_colors(input: &Image, x: u32, y: u32, colors: &Vec<(i64, i64)>) -> (v: Rgb)
    requires
        input@.wf(),
        colors@.len() == 3,
        forall|k: int|
            0 <= k < 3 ==> -0x1_0000_0000 <= (#[trigger] colors@[k]).0 <= 0x1_0000_0000
                && -0x1_0000_0000 <= colors@[k].1 <= 0x1_0000_0000,
    ensures
        v == (Rgb {
            r: spec_sample_ch(
                input@,
                x as int,
                y as int,
                colors@[0].0 as int,
                colors@[0].1 as int,
                0,
            ),
            g: spec_sample_ch(
                input@,
                x as int,
                y as int,
                colors@[1].0 as int,
                colors@[1].1 as int,
                1,
            ),
            b: spec_sample_ch(
                input@,
                x as int,
                y as int,
                colors@[2].0 as int,
                colors@[2].1 as int,
                2,
            ),
        }),
{
    let c0 = colors[0];
    let c1 = colors[1];
    let c2 = colors[2];
    let r = sample_channel(input, x, y, c0.0, c0.1, 0);
    let g = sample_channel(input, x, y, c1.0, c1.1, 1);
    let b = sample_channel(input, x, y, c2.0, c2.1, 2);
    Rgb { r, g, b }
}

/// The neighbor at offset `(dx, dy)`: the context's own color at the center,
/// black outside the image.
fn neighbor(input: &Image, x: u32, y: u32, dx: i64, dy: i64, center: Rgb) -> (v: Rgb)
    requires
        input@.wf(),
        -2 <= dx <= 2,
        -2 <= dy <= 2,
    ensures
        v == spec_nb(input@, x as int, y as int, center, dx as int, dy as int),
{
    if dx == 0 && dy == 0 {
        return center;
    }
    let px = x as i64 + dx;
    let py = y as i64 + dy;
    if px >= 0 && px < input.width as i64 && py >= 0 && py < input.height as i64 {
        input.get_pixel(px as u32, py as u32).rgb()
    } else {
        Rgb { r: 0, g: 0, b: 0 }
    }
}

/// The 3x3 neighborhood of `(x, y)`, walked x-outer, cell 4 the center.
pub fn fetch_boxed(input: &Image, x: u32, y: u32, center: Rgb) -> (boxed: Vec<Rgb>)
    requires
        input@.wf(),
    ensures
        boxed@.len() == 9,
        forall|k: int|
            0 <= k < 9 ==> #[trigger] boxed@[k] == spec_cell(input@, x as int, y as int, center, k),
{
    let mut boxed: Vec<Rgb> = Vec::new();
    boxed.push(neighbor(input, x, y, -1, -1, center));
    boxed.push(neighbor(input, x, y, -1, 0, center));
    boxed.push(neighbor(input, x, y, -1, 1, center));
    boxed.push(neighbor(input, x, y, 0, -1, center));
    boxed.push(neighbor(input, x, y, 0, 0, center));
    boxed.push(neighbor(input, x, y, 0, 1, center));
    boxed.push(neighbor(input, x, y, 1, -1, center));
    boxed.push(neighbor(input, x, y, 1, 0, center));
    boxed.push(neighbor(input, x, y, 1, 1, center));
    proof {
        assert forall|k: int| 0 <= k < 9 implies #[trigger] boxed@[k] == spec_cell(
            input@,
            x as int,
            y as int,
            center,
            k,
        ) by {
            assert(boxed@[0] == spec_cell(input@, x as int, y as int, center, 0));
            assert(boxed@[1] == spec_cell(input@, x as int, y as int, center, 1));
            assert(boxed@[2] == spec_cell(input@, x as int, y as int, center, 2));
            assert(boxed@[3] == spec_cell(input@, x as int, y as int, center, 3));
            assert(boxed@[4] == spec_cell(input@, x as int, y as int, center, 4));
            assert(boxed@[5] == spec_cell(input@, x as int, y as int, center, 5));
            assert(boxed@[6] == spec_cell(input@, x as int, y as int, center, 6));
            assert(boxed@[7] == spec_cell(input@, x as int, y as int, center, 7));
            assert(boxed@[8] == spec_cell(input@, x as int, y as int, center, 8));
        }
    }
    boxed
}

fn exec_max2(a: u8, b: u8) -> (r: u8)
    ensures
        r == max2(a, b),
{
    if a > b {
        a
    } else {
        b
    }
}

fn exec_min2(a: u8, b: u8) -> (r: u8)
    ensures
        r == min2(a, b),
{
    if a < b {
        a
    } else {
        b
    }
}

/// The edge-emphasis color of a fetched neighborhood.
fn edge_from_boxed(boxed: &Vec<Rgb>) -> (v: Rgb)
    requires
        boxed@.len() == 9,
    ensures
        v.r == edge_chain(
            boxed@[0].r,
            boxed@[1].r,
            boxed@[2].r,
            boxed@[3].r,
            boxed@[5].r,
            boxed@[6].r,
            boxed@[7].r,
            boxed@[8].r,
        ),
        v.g == edge_chain(
            boxed@[0].g,
            boxed@[1].g,
            boxed@[2].g,
            boxed@[3].g,
            boxed@[5].g,
            boxed@[6].g,
            boxed@[7].g,
            boxed@[8].g,
        ),
        v.b == edge_chain(
            boxed@[0].b,
            boxed@[1].b,
            boxed@[2].b,
            boxed@[3].b,
            boxed@[5].b,
            boxed@[6].b,
            boxed@[7].b,
            boxed@[8].b,
        ),
{
    let rr = wrap_sub(
        wrap_add(
            wrap_sub(
                wrap_add(
                    wrap_sub(wrap_add(wrap_sub(boxed[8].r, boxed[0].r), boxed[5].r), boxed[3].r),
                    boxed[7].r,
                ),
                boxed[1].r,
            ),
            boxed[6].r,
        ),
        boxed[2].r,
    );
    let gg = wrap_sub(
        wrap_add(
            wrap_sub(
                wrap_add(
                    wrap_sub(wrap_add(wrap_sub(boxed[8].g, boxed[0].g), boxed[5].g), boxed[3].g),
                    boxed[7].g,
                ),
                boxed[1].g,
            ),
            boxed[6].g,
        ),
        boxed[2].g,
    );
    let bb = wrap_sub(
        wrap_add(
            wrap_sub(
                wrap_add(
                    wrap_sub(wrap_add(wrap_sub(boxed[8].b, boxed[0].b), boxed[5].b), boxed[3].b),
                    boxed[7].b,
                ),
                boxed[1].b,
            ),
            boxed[6].b,
        ),
        boxed[2].b,
    );
    Rgb { r: rr, g: gg, b: bb }
}

/// Sums eight channel values into 32 bits.
fn sum_channels(n0: u8, n1: u8, n2: u8, n3: u8, n5: u8, n6: u8, n7: u8, n8: u8) -> (s: u32)
    ensures
        s == n0 + n1 + n2 + n3 + n5 + n6 + n7 + n8,
{
    n0 as u32 + n1 as u32 + n2 as u32 + n3 as u32 + n5 as u32 + n6 as u32 + n7 as u32 + n8 as u32
}

/// The blur-average color of a fetched neighborhood: the eight non-center
/// cells summed per channel, divided by nine.
fn blur_from_boxed(boxed: &Vec<Rgb>) -> (v: Rgb)
    requires
        boxed@.len() == 9,
    ensures
        v.r == blur_chain(
            boxed@[0].r,
            boxed@[1].r,
            boxed@[2].r,
            boxed@[3].r,
            boxed@[5].r,
            boxed@[6].r,
            boxed@[7].r,
            boxed@[8].r,
        ),
        v.g == blur_chain(
            boxed@[0].g,
            boxed@[1].g,
            boxed@[2].g,
            boxed@[3].g,
            boxed@[5].g,
            boxed@[6].g,
            boxed@[7].g,
            boxed@[8].g,
        ),
        v.b == blur_chain(
            boxed@[0].b,
            boxed@[1].b,
            boxed@[2].b,
            boxed@[3].b,
            boxed@[5].b,
            boxed@[6].b,
            boxed@[7].b,
            boxed@[8].b,
        ),
{
    let rr = sum_channels(
        boxed[0].r,
        boxed[1].r,
        boxed[2].r,
        boxed[3].r,
        boxed[5].r,
        boxed[6].r,
        boxed[7].r,
        boxed[8].r,
    );
    let gg = sum_channels(
        boxed[0].g,
        boxed[1].g,
        boxed[2].g,
        boxed[3].g,
        boxed[5].g,
        boxed[6].g,
        boxed[7].g,
        boxed[8].g,
    );
    let bb = sum_channels(
        boxed[0].b,
        boxed[1].b,
        boxed[2].b,
        boxed[3].b,
        boxed[5].b,
        boxed[6].b,
        boxed[7].b,
        boxed[8].b,
    );
    Rgb { r: (rr / 9) as u8, g: (gg / 9) as u8, b: (bb / 9) as u8 }
}

/// The per-channel maximum of the eight non-center cells.
fn max_of(n0: u8, n1: u8, n2: u8, n3: u8, n5: u8, n6: u8, n7: u8, n8: u8) -> (r: u8)
    ensures
        r == max_chain(n0, n1, n2, n3, n5, n6, n7, n8),
{
    exec_max2(
        exec_max2(
            exec_max2(exec_max2(exec_max2(exec_max2(exec_max2(n0, n1), n2), n3), n5), n6),
            n7,
        ),
        n8,
    )
}

/// The per-channel minimum of the eight non-center cells.
fn min_of(n0: u8, n1: u8, n2: u8, n3: u8, n5: u8, n6: u8, n7: u8, n8: u8) -> (r: u8)
    ensures
        r == min_chain(n0, n1, n2, n3, n5, n6, n7, n8),
{
    exec_min2(
        exec_min2(
            exec_min2(exec_min2(exec_min2(exec_min2(exec_min2(n0, n1), n2), n3), n5), n6),
            n7,
        ),
        n8,
    )
}

// --- the operand stack ---

/// Pops `b` then `a` and pushes the operator applied channel-wise; fails when
/// fewer than two operands are stacked.
pub fn binary_stack_op(stack: &mut Vec<Rgb>, tok: Token) -> (r: Result<(), EvalError>)
    requires
        is_binop(tok),
    ensures
        old(stack)@.len() >= 2 ==> r is Ok && final(stack)@ == old(stack)@.take(
            old(stack)@.len() - 2,
        ).push(
            binop_rgb(tok, old(stack)@[old(stack)@.len() - 2], old(stack)@[old(stack)@.len() - 1]),
        ),
        old(stack)@.len() < 2 ==> r == Err::<(), EvalError>(EvalError::StackUnderflow),
{
    let b = match stack.pop() {
        Some(v) => v,
        None => {
            return Err(EvalError::StackUnderflow);
        },
    };
    let a = match stack.pop() {
        Some(v) => v,
        None => {
            return Err(EvalError::StackUnderflow);
        },
    };
    let rr = binop_channel(tok, a.r, b.r);
    let gg = binop_channel(tok, a.g, b.g);
    let bb = binop_channel(tok, a.b, b.b);
    stack.push(Rgb { r: rr, g: gg, b: bb });
    proof {
        assert(stack@ =~= old(stack)@.take(old(stack)@.len() - 2).push(
            binop_rgb(tok, old(stack)@[old(stack)@.len() - 2], old(stack)@[old(stack)@.len() - 1]),
        ));
    }
    Ok(())
}

/// The operators whose right operand names a channel-wide amount: power and
/// the two shifts.
pub enum ChannelOp {
    Pow,
    BitLShift,
    BitRShift,
}

impl ChannelOp {
    pub open spec fn token(self) -> Token {
        match self {
            ChannelOp::Pow => Token::Pow,
            ChannelOp::BitLShift => Token::BitLShift,
            ChannelOp::BitRShift => Token::BitRShift,
        }
    }
}

/// As `binary_stack_op`, for the power and shift operators.
pub fn channel_op(stack: &mut Vec<Rgb>, op: ChannelOp) -> (r: Result<(), EvalError>)
    ensures
        old(stack)@.len() >= 2 ==> r is Ok && final(stack)@ == old(stack)@.take(
            old(stack)@.len() - 2,
        ).push(
            binop_rgb(
                op.token(),
                old(stack)@[old(stack)@.len() - 2],
                old(stack)@[old(stack)@.len() - 1],
            ),
        ),
        old(stack)@.len() < 2 ==> r == Err::<(), EvalError>(EvalError::StackUnderflow),
{
    let tok = match op {
        ChannelOp::Pow => Token::Pow,
        ChannelOp::BitLShift => Token::BitLShift,
        ChannelOp::BitRShift => Token::BitRShift,
    };
    binary_stack_op(stack, tok)
}

// --- the evaluator ---

/// The error-free VM state that the evaluator's plain values stand for.
pub open spec fn vm_of(stack: Seq<Rgb>, memo: MemoModel, di: int) -> VmState {
    VmState { stack, memo, di, ok: true, err: None }
}

/// One variable instruction applied to the evaluator's state; returns the
/// draw log extended by whatever the random source produced.
#[verifier::spinoff_prover]
#[verifier::rlimit(100)]
fn eval_step_var(
    c: char,
    ctx: &EvalContext,
    input: &Image,
    rng: &mut StdRng,
    stack: &mut Vec<Rgb>,
    memo: &mut MemoCache,
    Ghost(draws): Ghost<Seq<int>>,
) -> (res: (Result<(), EvalError>, Ghost<Seq<int>>))
    requires
        ctx.wf_for(input@),
        old(memo).wf(),
    ensures
        final(memo).wf(),
        res.1@.len() >= draws.len(),
        res.1@.subrange(0, draws.len() as int) == draws,
        ({
            let st0 = vm_of(old(stack)@, old(memo)@, draws.len() as int);
            let st1 = spec_step_var(st0, c, ctx.ctx(), input@, res.1@);
            match res.0 {
                Ok(()) => st1 == vm_of(final(stack)@, final(memo)@, res.1@.len() as int),
                Err(e) => st1 == (VmState { err: Some(e), ..st0 }) && res.1@ == draws,
            }
        }),
{
    proof {
        reveal(spec_step_var);
    }
    let ghost st0 = vm_of(stack@, memo@, draws.len() as int);
    let ghost cs = ctx.ctx();
    let ghost imgv = input@;
    let width = ctx.size.0;
    let height = ctx.size.1;
    let x = ctx.position.0;
    let y = ctx.position.1;
    let center = Rgb { r: ctx.rgba.r, g: ctx.rgba.g, b: ctx.rgba.b };
    match c {
        'c' => {
            stack.push(center);
            (Ok(()), Ghost(draws))
        },
        's' => {
            stack.push(Rgb { r: ctx.saved_rgb[0], g: ctx.saved_rgb[1], b: ctx.saved_rgb[2] });
            (Ok(()), Ghost(draws))
        },
        'Y' => {
            let v_y = match memo.v_y {
                Some(v) => v,
                None => {
                    let l = exec_luma(ctx.rgba.r, ctx.rgba.g, ctx.rgba.b);
                    let v = Rgb { r: l, g: l, b: l };
                    memo.v_y = Some(v);
                    v
                },
            };
            stack.push(v_y);
            (Ok(()), Ghost(draws))
        },
        'x' => {
            let xu = exec_three_rule(x, width);
            stack.push(Rgb { r: xu, g: xu, b: xu });
            (Ok(()), Ghost(draws))
        },
        'y' => {
            let yu = exec_three_rule(y, height);
            stack.push(Rgb { r: yu, g: yu, b: yu });
            (Ok(()), Ghost(draws))
        },
        _ => eval_step_var_rand(c, ctx, input, rng, stack, memo, Ghost(draws)),
    }
}

/// A stateful variable whose memo slot is filled only pushes the slot.
proof fn lemma_step_var_hit(ch: char, st0: VmState, c: CtxSpec, img: ImgSpec, d: Seq<int>, v: Rgb)
    requires
        st0.err is None,
        ch == 't' ==> st0.memo.v_t == Some(v),
        ch == 'g' ==> st0.memo.v_g == Some(v),
        ch == 't' || ch == 'g',
    ensures
        spec_step_var(st0, ch, c, img, d) == vm_push(st0, v),
{
    reveal(spec_step_var);
}

/// A missed grid sample consumes six draws within distance two and fills the
/// slot unless memoization is off.
proof fn lemma_step_var_miss_t(st0: VmState, c: CtxSpec, img: ImgSpec, d2: Seq<int>, v: Rgb)
    requires
        st0.err is None,
        st0.ok,
        st0.memo.v_t is None,
        0 <= st0.di,
        d2.len() == st0.di + 6,
        forall|k: int| st0.di <= k < st0.di + 6 ==> -2 <= #[trigger] d2[k] <= 2,
        v == spec_sample_rgb(img, c.x as int, c.y as int, d2, st0.di),
    ensures
        spec_step_var(st0, 't', c, img, d2) == (VmState {
            stack: st0.stack.push(v),
            memo: if c.ignore_state {
                st0.memo
            } else {
                MemoModel { v_t: Some(v), ..st0.memo }
            },
            di: st0.di + 6,
            ok: true,
            err: None,
        }),
{
    reveal(spec_step_var);
    assert forall|k: int| st0.di <= k < st0.di + 6 implies -2 <= #[trigger] draw_at(d2, k)
        <= 2 by {
        assert(draw_at(d2, k) == d2[k]);
    }
    assert(in_range(d2, st0.di, 6, -2, 2));
}

/// A missed image-wide sample consumes six draws bounded by the image width,
/// on both axes.
proof fn lemma_step_var_miss_g(st0: VmState, c: CtxSpec, img: ImgSpec, d2: Seq<int>, v: Rgb)
    requires
        st0.err is None,
        st0.ok,
        st0.memo.v_g is None,
        0 <= st0.di,
        d2.len() == st0.di + 6,
        forall|k: int| st0.di <= k < st0.di + 6 ==> 0 <= #[trigger] d2[k] <= c.width,
        v == spec_sample_rgb(img, c.x as int, c.y as int, d2, st0.di),
    ensures
        spec_step_var(st0, 'g', c, img, d2) == (VmState {
            stack: st0.stack.push(v),
            memo: if c.ignore_state {
                st0.memo
            } else {
                MemoModel { v_g: Some(v), ..st0.memo }
            },
            di: st0.di + 6,
            ok: true,
            err: None,
        }),
{
    reveal(spec_step_var);
    assert forall|k: int| st0.di <= k < st0.di + 6 implies 0 <= #[trigger] draw_at(d2, k)
        <= c.width by {
        assert(draw_at(d2, k) == d2[k]);
    }
    assert(in_range(d2, st0.di, 6, 0, c.width as int));
}

/// Noise consumes three draws, one channel value each, and is never cached.
proof fn lemma_step_var_noise(st0: VmState, c: CtxSpec, img: ImgSpec, d2: Seq<int>, v: Rgb)
    requires
        st0.err is None,
        st0.ok,
        0 <= st0.di,
        d2.len() == st0.di + 3,
        forall|k: int| st0.di <= k < st0.di + 3 ==> 0 <= #[trigger] d2[k] <= 255,
        v == (Rgb {
            r: d2[st0.di] as u8,
            g: d2[st0.di + 1] as u8,
            b: d2[st0.di + 2] as u8,
        }),
    ensures
        spec_step_var(st0, 'N', c, img, d2) == (VmState {
            stack: st0.stack.push(v),
            memo: st0.memo,
            di: st0.di + 3,
            ok: true,
            err: None,
        }),
{
    reveal(spec_step_var);
    assert forall|k: int| st0.di <= k < st0.di + 3 implies 0 <= #[trigger] draw_at(d2, k)
        <= 255 by {
        assert(draw_at(d2, k) == d2[k]);
    }
    assert(in_range(d2, st0.di, 3, 0, 255));
    assert(draw_at(d2, st0.di) == d2[st0.di]);
    assert(draw_at(d2, st0.di + 1) == d2[st0.di + 1]);
    assert(draw_at(d2, st0.di + 2) == d2[st0.di + 2]);
}

/// The grid-sampling variable: three random offsets within distance two.
#[verifier::spinoff_prover]
#[verifier::rlimit(100)]
fn eval_step_var_rand(
    c: char,
    ctx: &EvalContext,
    input: &Image,
    rng: &mut StdRng,
    stack: &mut Vec<Rgb>,
    memo: &mut MemoCache,
    Ghost(draws): Ghost<Seq<int>>,
) -> (res: (Result<(), EvalError>, Ghost<Seq<int>>))
    requires
        ctx.wf_for(input@),
        old(memo).wf(),
        c != 'c' && c != 's' && c != 'Y' && c != 'x' && c != 'y',
    ensures
        final(memo).wf(),
        res.1@.len() >= draws.len(),
        res.1@.subrange(0, draws.len() as int) == draws,
        ({
            let st0 = vm_of(old(stack)@, old(memo)@, draws.len() as int);
            let st1 = spec_step_var(st0, c, ctx.ctx(), input@, res.1@);
            match res.0 {
                Ok(()) => st1 == vm_of(final(stack)@, final(memo)@, res.1@.len() as int),
                Err(e) => st1 == (VmState { err: Some(e), ..st0 }) && res.1@ == draws,
            }
        }),
{
    let ghost st0 = vm_of(stack@, memo@, draws.len() as int);
    let ghost cs = ctx.ctx();
    let ghost imgv = input@;
    let x = ctx.position.0;
    let y = ctx.position.1;
    match c {
        't' => {
            match memo.v_t {
                Some(v) => {
                    stack.push(v);
                    proof {
                        lemma_step_var_hit('t', st0, cs, imgv, draws, v);
                    }
                    (Ok(()), Ghost(draws))
                },
                None => {
                    let colors = gen_random_position(-2, 2, rng);
                    let ghost d2 = draws + seq![
                        colors@[0].0 as int,
                        colors@[0].1 as int,
                        colors@[1].0 as int,
                        colors@[1].1 as int,
                        colors@[2].0 as int,
                        colors@[2].1 as int,
                    ];
                    let v = rgb_from_colors(input, x, y, &colors);
                    if !ctx.ignore_state {
                        memo.v_t = Some(v);
                    }
                    stack.push(v);
                    proof {
                        let di = st0.di;
                        assert(d2.subrange(0, draws.len() as int) =~= draws);
                        assert(draw_at(d2, di) == colors@[0].0 as int);
                        assert(draw_at(d2, di + 1) == colors@[0].1 as int);
                        assert(draw_at(d2, di + 2) == colors@[1].0 as int);
                        assert(draw_at(d2, di + 3) == colors@[1].1 as int);
                        assert(draw_at(d2, di + 4) == colors@[2].0 as int);
                        assert(draw_at(d2, di + 5) == colors@[2].1 as int);
                        assert(v == spec_sample_rgb(imgv, cs.x as int, cs.y as int, d2, di));
                        lemma_step_var_miss_t(st0, cs, imgv, d2, v);
                    }
                    (Ok(()), Ghost(d2))
                },
            }
        },
        _ => eval_step_var_rand_g(c, ctx, input, rng, stack, memo, Ghost(draws)),
    }
}

/// The image-wide sampling variable: offsets drawn up to the width, on
/// both axes.
#[verifier::spinoff_prover]
#[verifier::rlimit(100)]
fn eval_step_var_rand_g(
    c: char,
    ctx: &EvalContext,
    input: &Image,
    rng: &mut StdRng,
    stack: &mut Vec<Rgb>,
    memo: &mut MemoCache,
    Ghost(draws): Ghost<Seq<int>>,
) -> (res: (Result<(), EvalError>, Ghost<Seq<int>>))
    requires
        ctx.wf_for(input@),
        old(memo).wf(),
        c != 'c' && c != 's' && c != 'Y' && c != 'x' && c != 'y',
        c != 't',
    ensures
        final(memo).wf(),
        res.1@.len() >= draws.len(),
        res.1@.subrange(0, draws.len() as int) == draws,
        ({
            let st0 = vm_of(old(stack)@, old(memo)@, draws.len() as int);
            let st1 = spec_step_var(st0, c, ctx.ctx(), input@, res.1@);
            match res.0 {
                Ok(()) => st1 == vm_of(final(stack)@, final(memo)@, res.1@.len() as int),
                Err(e) => st1 == (VmState { err: Some(e), ..st0 }) && res.1@ == draws,
            }
        }),
{
    let ghost st0 = vm_of(stack@, memo@, draws.len() as int);
    let ghost cs = ctx.ctx();
    let ghost imgv = input@;
    let width = ctx.size.0;
    let x = ctx.position.0;
    let y = ctx.position.1;
    match c {
        'g' => {
            match memo.v_g {
                Some(v) => {
                    stack.push(v);
                    proof {
                        lemma_step_var_hit('g', st0, cs, imgv, draws, v);
                    }
                    (Ok(()), Ghost(draws))
                },
                None => {
                    let colors = gen_random_position(0, width as i64, rng);
                    let ghost d2 = draws + seq![
                        colors@[0].0 as int,
                        colors@[0].1 as int,
                        colors@[1].0 as int,
                        colors@[1].1 as int,
                        colors@[2].0 as int,
                        colors@[2].1 as int,
                    ];
                    let v = rgb_from_colors(input, x, y, &colors);
                    if !ctx.ignore_state {
                        memo.v_g = Some(v);
                    }
                    stack.push(v);
                    proof {
                        let di = st0.di;
                        assert(d2.subrange(0, draws.len() as int) =~= draws);
                        assert(draw_at(d2, di) == colors@[0].0 as int);
                        assert(draw_at(d2, di + 1) == colors@[0].1 as int);
                        assert(draw_at(d2, di + 2) == colors@[1].0 as int);
                        assert(draw_at(d2, di + 3) == colors@[1].1 as int);
                        assert(draw_at(d2, di + 4) == colors@[2].0 as int);
                        assert(draw_at(d2, di + 5) == colors@[2].1 as int);
                        assert(v == spec_sample_rgb(imgv, cs.x as int, cs.y as int, d2, di));
                        lemma_step_var_miss_g(st0, cs, imgv, d2, v);
                    }
                    (Ok(()), Ghost(d2))
                },
            }
        },
        _ => eval_step_var_rand_n(c, ctx, input, rng, stack, memo, Ghost(draws)),
    }
}

/// The noise variable: three fresh channel values.
#[verifier::spinoff_prover]
#[verifier::rlimit(100)]
fn eval_step_var_rand_n(
    c: char,
    ctx: &EvalContext,
    input: &Image,
    rng: &mut StdRng,
    stack: &mut Vec<Rgb>,
    memo: &mut MemoCache,
    Ghost(draws): Ghost<Seq<int>>,
) -> (res: (Result<(), EvalError>, Ghost<Seq<int>>))
    requires
        ctx.wf_for(input@),
        old(memo).wf(),
        c != 'c' && c != 's' && c != 'Y' && c != 'x' && c != 'y',
        c != 't' && c != 'g',
    ensures
        final(memo).wf(),
        res.1@.len() >= draws.len(),
        res.1@.subrange(0, draws.len() as int) == draws,
        ({
            let st0 = vm_of(old(stack)@, old(memo)@, draws.len() as int);
            let st1 = spec_step_var(st0, c, ctx.ctx(), input@, res.1@);
            match res.0 {
                Ok(()) => st1 == vm_of(final(stack)@, final(memo)@, res.1@.len() as int),
                Err(e) => st1 == (VmState { err: Some(e), ..st0 }) && res.1@ == draws,
            }
        }),
{
    let ghost st0 = vm_of(stack@, memo@, draws.len() as int);
    let ghost cs = ctx.ctx();
    let ghost imgv = input@;
    match c {
        'N' => {
            let r1 = rand_range(rng, 0, 255);
            let r2 = rand_range(rng, 0, 255);
            let r3 = rand_range(rng, 0, 255);
            let ghost d2 = draws + seq![r1 as int, r2 as int, r3 as int];
            let v = Rgb { r: r1 as u8, g: r2 as u8, b: r3 as u8 };
            stack.push(v);
            proof {
                let di = st0.di;
                assert(d2.subrange(0, draws.len() as int) =~= draws);
                assert(d2[di] == r1 as int);
                assert(d2[di + 1] == r2 as int);
                assert(d2[di + 2] == r3 as int);
                lemma_step_var_noise(st0, cs, imgv, d2, v);
            }
            (Ok(()), Ghost(d2))
        },
        _ => eval_step_var_boxed(c, ctx, input, rng, stack, memo, Ghost(draws)),
    }
}

/// The neighborhood variables: edge emphasis, blur average, maxima and
/// minima.
#[verifier::spinoff_prover]
#[verifier::rlimit(100)]
fn eval_step_var_boxed(
    c: char,
    ctx: &EvalContext,
    input: &Image,
    rng: &mut StdRng,
    stack: &mut Vec<Rgb>,
    memo: &mut MemoCache,
    Ghost(draws): Ghost<Seq<int>>,
) -> (res: (Result<(), EvalError>, Ghost<Seq<int>>))
    requires
        ctx.wf_for(input@),
        old(memo).wf(),
        c != 'c' && c != 's' && c != 'Y' && c != 'x' && c != 'y',
        c != 't' && c != 'g' && c != 'N',
    ensures
        final(memo).wf(),
        res.1@.len() >= draws.len(),
        res.1@.subrange(0, draws.len() as int) == draws,
        ({
            let st0 = vm_of(old(stack)@, old(memo)@, draws.len() as int);
            let st1 = spec_step_var(st0, c, ctx.ctx(), input@, res.1@);
            match res.0 {
                Ok(()) => st1 == vm_of(final(stack)@, final(memo)@, res.1@.len() as int),
                Err(e) => st1 == (VmState { err: Some(e), ..st0 }) && res.1@ == draws,
            }
        }),
{
    proof {
        reveal(spec_step_var);
    }
    let ghost st0 = vm_of(stack@, memo@, draws.len() as int);
    let ghost cs = ctx.ctx();
    let ghost imgv = input@;
    let width = ctx.size.0;
    let height = ctx.size.1;
    let x = ctx.position.0;
    let y = ctx.position.1;
    let center = Rgb { r: ctx.rgba.r, g: ctx.rgba.g, b: ctx.rgba.b };
    match c {
        'e' => {
            let v_e = match memo.v_e {
                Some(v) => v,
                None => {
                    let boxed = fetch_boxed(input, x, y, center);
                    let v = edge_from_boxed(&boxed);
                    proof {
                        assert(v == spec_edge(imgv, cs));
                    }
                    memo.v_e = Some(v);
                    v
                },
            };
            stack.push(v_e);
            (Ok(()), Ghost(draws))
        },
        'b' => {
            let v_b = match memo.v_b {
                Some(v) => v,
                None => {
                    let boxed = fetch_boxed(input, x, y, center);
                    let v = blur_from_boxed(&boxed);
                    proof {
                        assert(v == spec_blur(imgv, cs));
                    }
                    if !ctx.ignore_state {
                        memo.v_b = Some(v);
                    }
                    v
                },
            };
            stack.push(v_b);
            (Ok(()), Ghost(draws))
        },
        'H' => {
            let v_h = match memo.v_high {
                Some(v) => v,
                None => {
                    let boxed = fetch_boxed(input, x, y, center);
                    let r_m = max_of(
                        boxed[0].r, boxed[1].r, boxed[2].r, boxed[3].r,
                        boxed[5].r, boxed[6].r, boxed[7].r, boxed[8].r,
                    );
                    let g_m = max_of(
                        boxed[0].g, boxed[1].g, boxed[2].g, boxed[3].g,
                        boxed[5].g, boxed[6].g, boxed[7].g, boxed[8].g,
                    );
                    let b_m = max_of(
                        boxed[0].b, boxed[1].b, boxed[2].b, boxed[3].b,
                        boxed[5].b, boxed[6].b, boxed[7].b, boxed[8].b,
                    );
                    let v = Rgb { r: r_m, g: g_m, b: b_m };
                    proof {
                        assert(v == spec_high(imgv, cs));
                    }
                    if !ctx.ignore_state {
                        memo.v_high = Some(v);
                    }
                    v
                },
            };
            stack.push(v_h);
            (Ok(()), Ghost(draws))
        },
        'L' => {
            let v_l = match memo.v_low {
                Some(v) => v,
                None => {
                    let boxed = fetch_boxed(input, x, y, center);
                    let r_m = min_of(
                        boxed[0].r, boxed[1].r, boxed[2].r, boxed[3].r,
                        boxed[5].r, boxed[6].r, boxed[7].r, boxed[8].r,
                    );
                    let g_m = min_of(
                        boxed[0].g, boxed[1].g, boxed[2].g, boxed[3].g,
                        boxed[5].g, boxed[6].g, boxed[7].g, boxed[8].g,
                    );
                    let b_m = min_of(
                        boxed[0].b, boxed[1].b, boxed[2].b, boxed[3].b,
                        boxed[5].b, boxed[6].b, boxed[7].b, boxed[8].b,
                    );
                    let v = Rgb { r: r_m, g: g_m, b: b_m };
                    proof {
                        assert(v == spec_low(imgv, cs));
                    }
                    if !ctx.ignore_state {
                        memo.v_low = Some(v);
                    }
                    v
                },
            };
            stack.push(v_l);
            (Ok(()), Ghost(draws))
        },
        _ => eval_step_var_mirror(c, ctx, input, rng, stack, memo, Ghost(draws)),
    }
}

/// The mirrored-pixel variables; anything else is unknown.
#[verifier::spinoff_prover]
#[verifier::rlimit(100)]
fn eval_step_var_mirror(
    c: char,
    ctx: &EvalContext,
    input: &Image,
    rng: &mut StdRng,
    stack: &mut Vec<Rgb>,
    memo: &mut MemoCache,
    Ghost(draws): Ghost<Seq<int>>,
) -> (res: (Result<(), EvalError>, Ghost<Seq<int>>))
    requires
        ctx.wf_for(input@),
        old(memo).wf(),
        c != 'c' && c != 's' && c != 'Y' && c != 'x' && c != 'y',
        c != 't' && c != 'g' && c != 'N',
        c != 'e' && c != 'b' && c != 'H' && c != 'L',
    ensures
        final(memo).wf(),
        res.1@.len() >= draws.len(),
        res.1@.subrange(0, draws.len() as int) == draws,
        ({
            let st0 = vm_of(old(stack)@, old(memo)@, draws.len() as int);
            let st1 = spec_step_var(st0, c, ctx.ctx(), input@, res.1@);
            match res.0 {
                Ok(()) => st1 == vm_of(final(stack)@, final(memo)@, res.1@.len() as int),
                Err(e) => st1 == (VmState { err: Some(e), ..st0 }) && res.1@ == draws,
            }
        }),
{
    proof {
        reveal(spec_step_var);
    }
    let ghost st0 = vm_of(stack@, memo@, draws.len() as int);
    let ghost cs = ctx.ctx();
    let ghost imgv = input@;
    let width = ctx.size.0;
    let height = ctx.size.1;
    let x = ctx.position.0;
    let y = ctx.position.1;
    let center = Rgb { r: ctx.rgba.r, g: ctx.rgba.g, b: ctx.rgba.b };
    match c {
        'h' => {
            let v_h = match memo.v_h {
                Some(v) => v,
                None => {
                    let hx = width - x - 1;
                    let p = input.get_pixel(hx, y);
                    let v = Rgb { r: p.r, g: p.g, b: p.b };
                    if !ctx.ignore_state {
                        memo.v_h = Some(v);
                    }
                    v
                },
            };
            stack.push(v_h);
            (Ok(()), Ghost(draws))
        },
        'v' => {
            let v_v = match memo.v_v {
                Some(v) => v,
                None => {
                    let vy = height - y - 1;
                    let p = input.get_pixel(x, vy);
                    let v = Rgb { r: p.r, g: p.g, b: p.b };
                    if !ctx.ignore_state {
                        memo.v_v = Some(v);
                    }
                    v
                },
            };
            stack.push(v_v);
            (Ok(()), Ghost(draws))
        },
        'd' => {
            let v_d = match memo.v_d {
                Some(v) => v,
                None => {
                    let hx = width - x - 1;
                    let vy = height - y - 1;
                    let p = input.get_pixel(hx, vy);
                    let v = Rgb { r: p.r, g: p.g, b: p.b };
                    if !ctx.ignore_state {
                        memo.v_d = Some(v);
                    }
                    v
                },
            };
            stack.push(v_d);
            (Ok(()), Ghost(draws))
        },
        _ => (Err(EvalError::UnknownInstruction), Ghost(draws)),
    }
}

/// One instruction applied to the evaluator's state.
#[verifier::spinoff_prover]
#[verifier::rlimit(100)]
fn eval_step(
    tok: Token,
    ctx: &EvalContext,
    input: &Image,
    rng: &mut StdRng,
    stack: &mut Vec<Rgb>,
    memo: &mut MemoCache,
    Ghost(draws): Ghost<Seq<int>>,
) -> (res: (Result<(), EvalError>, Ghost<Seq<int>>))
    requires
        ctx.wf_for(input@),
        old(memo).wf(),
    ensures
        final(memo).wf(),
        res.1@.len() >= draws.len(),
        res.1@.subrange(0, draws.len() as int) == draws,
        ({
            let st0 = vm_of(old(stack)@, old(memo)@, draws.len() as int);
            let st1 = spec_step(st0, tok, ctx.ctx(), input@, res.1@);
            match res.0 {
                Ok(()) => st1 == vm_of(final(stack)@, final(memo)@, res.1@.len() as int),
                Err(e) => st1 == (VmState { err: Some(e), ..st0 }) && res.1@ == draws,
            }
        }),
{
    proof {
        reveal(spec_step);
    }
    let ghost st0 = vm_of(stack@, memo@, draws.len() as int);
    let ghost cs = ctx.ctx();
    let ghost imgv = input@;
    let x = ctx.position.0;
    let y = ctx.position.1;
    match tok {
        Token::Num(v) => {
            stack.push(Rgb { r: v, g: v, b: v });
            (Ok(()), Ghost(draws))
        },
        Token::Add | Token::Sub | Token::Mul | Token::Div | Token::Mod | Token::BitAnd
            | Token::BitOr | Token::BitXor | Token::BitAndNot | Token::Weight
            | Token::Greater => {
            match binary_stack_op(stack, tok) {
                Ok(()) => (Ok(()), Ghost(draws)),
                Err(e) => (Err(e), Ghost(draws)),
            }
        },
        Token::Pow => {
            match channel_op(stack, ChannelOp::Pow) {
                Ok(()) => (Ok(()), Ghost(draws)),
                Err(e) => (Err(e), Ghost(draws)),
            }
        },
        Token::BitLShift => {
            match channel_op(stack, ChannelOp::BitLShift) {
                Ok(()) => (Ok(()), Ghost(draws)),
                Err(e) => (Err(e), Ghost(draws)),
            }
        },
        Token::BitRShift => {
            match channel_op(stack, ChannelOp::BitRShift) {
                Ok(()) => (Ok(()), Ghost(draws)),
                Err(e) => (Err(e), Ghost(draws)),
            }
        },
        Token::Random(num) => {
            match memo.r_get(num) {
                Some(v) => {
                    stack.push(v);
                    (Ok(()), Ghost(draws))
                },
                None => {
                    let neg: i64 = -(num as i64);
                    let colors = gen_random_position(neg, num as i64, rng);
                    let ghost d2 = draws + seq![
                        colors@[0].0 as int,
                        colors@[0].1 as int,
                        colors@[1].0 as int,
                        colors@[1].1 as int,
                        colors@[2].0 as int,
                        colors@[2].1 as int,
                    ];
                    let v = rgb_from_colors(input, x, y, &colors);
                    if !ctx.ignore_state {
                        memo.r_set(num, v);
                    }
                    stack.push(v);
                    proof {
                        let di = st0.di;
                        assert(d2.subrange(0, draws.len() as int) =~= draws);
                        assert(draw_at(d2, di) == colors@[0].0 as int);
                        assert(draw_at(d2, di + 1) == colors@[0].1 as int);
                        assert(draw_at(d2, di + 2) == colors@[1].0 as int);
                        assert(draw_at(d2, di + 3) == colors@[1].1 as int);
                        assert(draw_at(d2, di + 4) == colors@[2].0 as int);
                        assert(draw_at(d2, di + 5) == colors@[2].1 as int);
                        assert(v == spec_sample_rgb(imgv, cs.x as int, cs.y as int, d2, di));
                        assert(in_range(d2, di, 6, -(num as int), num as int));
                    }
                    (Ok(()), Ghost(d2))
                },
            }
        },
        Token::RGBColor(part, v) => {
            match part {
                'R' => {
                    stack.push(Rgb { r: v, g: 0, b: 0 });
                    (Ok(()), Ghost(draws))
                },
                'G' => {
                    stack.push(Rgb { r: 0, g: v, b: 0 });
                    (Ok(()), Ghost(draws))
                },
                'B' => {
                    stack.push(Rgb { r: 0, g: 0, b: v });
                    (Ok(()), Ghost(draws))
                },
                _ => (Err(EvalError::UnknownInstruction), Ghost(draws)),
            }
        },
        Token::Brightness(v) => {
            let p = input.get_pixel(x, y);
            let nr = exec_bright(p.r, v);
            let ng = exec_bright(p.g, v);
            let nb = exec_bright(p.b, v);
            stack.push(Rgb { r: nr, g: ng, b: nb });
            (Ok(()), Ghost(draws))
        },
        Token::Invert => {
            let p = input.get_pixel(x, y);
            stack.push(Rgb { r: 255 - p.r, g: 255 - p.g, b: 255 - p.b });
            (Ok(()), Ghost(draws))
        },
        Token::Char(c) => eval_step_var(c, ctx, input, rng, stack, memo, Ghost(draws)),
        Token::LeftParen | Token::RightParen => (
            Err(EvalError::UnknownInstruction),
            Ghost(draws),
        ),
    }
}

/// Runs one instruction sequence against one pixel's context.
///
/// The result equals `spec_eval` on the values the random source actually
/// produced, a log that `eval_draws_ok` vouches for: every drawn value lay in
/// the range its instruction asked for. A fully transparent pixel is returned
/// as fully transparent black without running a single instruction, and a
/// computed color always carries the pixel's own alpha.
pub fn eval(ctx: EvalContext, input: &Image, rng: &mut StdRng) -> (r: Result<Rgba, EvalError>)
    requires
        ctx.wf_for(input@),
    ensures
        exists|draws: Seq<int>|
            #[trigger] eval_draws_ok(ctx.tokens@, ctx.ctx(), input@, draws) && r == spec_eval(
                ctx.tokens@,
                ctx.ctx(),
                input@,
                draws,
            ),
        ctx.rgba.a == 0 ==> r == Ok::<Rgba, EvalError>(Rgba { r: 0, g: 0, b: 0, a: 0 }),
        r matches Ok(out) ==> out.a == ctx.rgba.a,
{
    let ghost cs = ctx.ctx();
    let ghost imgv = input@;
    let ghost toks = ctx.tokens@;
    let ca = ctx.rgba.a;

    if ca == 0 {
        proof {
            let w: Seq<int> = Seq::empty();
            assert(eval_draws_ok(toks, cs, imgv, w));
        }
        return Ok(Rgba { r: 0, g: 0, b: 0, a: 0 });
    }

    let mut stack: Vec<Rgb> = Vec::new();
    let mut memo = MemoCache::new();
    let ghost mut draws: Seq<int> = Seq::empty();
    let n = ctx.tokens.len();
    let mut idx: usize = 0;

    while idx < n
        invariant
            ctx.wf_for(input@),
            cs == ctx.ctx(),
            imgv == input@,
            toks == ctx.tokens@,
            ca == cs.rgba.a,
            ca != 0,
            n == toks.len(),
            idx <= n,
            memo.wf(),
            spec_run(toks.take(idx as int), cs, imgv, draws) == vm_of(
                stack@,
                memo@,
                draws.len() as int,
            ),
        decreases n - idx,
    {
        let ghost pre_draws = draws;
        let ghost st_i = spec_run(toks.take(idx as int), cs, imgv, pre_draws);
        let tok = ctx.tokens[idx];
        let res = eval_step(tok, &ctx, input, rng, &mut stack, &mut memo, Ghost(draws));
        proof {
            let d2 = res.1@;
            assert forall|k: int| 0 <= k < st_i.di implies draw_at(pre_draws, k) == draw_at(
                d2,
                k,
            ) by {
                assert(d2.subrange(0, pre_draws.len() as int)[k] == d2[k]);
            }
            lemma_run_agree(toks.take(idx as int), cs, imgv, pre_draws, d2);
            draws = d2;
            lemma_run_snoc(toks, cs, imgv, draws, idx as int);
        }
        match res.0 {
            Ok(()) => {},
            Err(e) => {
                proof {
                    lemma_run_prefix_err(toks, cs, imgv, draws, idx as int + 1);
                    assert(eval_draws_ok(toks, cs, imgv, draws));
                }
                return Err(e);
            },
        }
        idx = idx + 1;
    }
    proof {
        assert(toks.take(n as int) =~= toks);
    }
    if stack.len() == 0 {
        proof {
            assert(eval_draws_ok(toks, cs, imgv, draws));
        }
        return Err(EvalError::StackUnderflow);
    }
    let col = stack[stack.len() - 1];
    proof {
        assert(eval_draws_ok(toks, cs, imgv, draws));
    }
    Ok(Rgba { r: col.r, g: col.g, b: col.b, a: ca })
}


} // verus!
