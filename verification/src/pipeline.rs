use vstd::prelude::*;
use rand::rngs::StdRng;
use crate::bounds::{find_non_zero_bounds, spec_bounds, lemma_bounds_attained, nz, Bounds};
use crate::eval::{eval, eval_draws_ok, spec_eval, CtxSpec, EvalContext};
use crate::img::{Image, ImgSpec};
use crate::rgb::{Rgb, Rgba};
use crate::token::{EvalError, Token};

verus! {

// --- the model of one pass over one image ---

/// The draw log of the `k`-th pixel evaluated in a pass; empty past the end.
pub open spec fn log_at(logs: Seq<Seq<int>>, k: int) -> Seq<int> {
    if 0 <= k < logs.len() {
        logs[k]
    } else {
        Seq::empty()
    }
}

/// The per-pass draw logs of the `p`-th pass; empty past the end.
pub open spec fn pass_log_at(logs: Seq<Seq<Seq<int>>>, p: int) -> Seq<Seq<int>> {
    if 0 <= p < logs.len() {
        logs[p]
    } else {
        Seq::empty()
    }
}

/// A pass mid-run: the output pixels so far, the carried previous output,
/// how many pixels were evaluated, whether every evaluation's draw log was
/// accounted for, and the first error, which freezes the state.
pub ghost struct PassState {
    pub pixels: Seq<Rgba>,
    pub saved: Rgb,
    pub k: int,
    pub ok: bool,
    pub err: Option<EvalError>,
}

pub open spec fn pass_init(input: ImgSpec) -> PassState {
    PassState { pixels: input.pixels, saved: Rgb { r: 0, g: 0, b: 0 }, k: 0, ok: true, err: None }
}

/// One pixel of a pass: evaluate the instruction sequence against the pass's
/// input image, write the output pixel, and carry its color forward.
pub open spec fn pass_cell(
    input: ImgSpec,
    tokens: Seq<Token>,
    ignore: bool,
    x: int,
    y: int,
    st: PassState,
    logs: Seq<Seq<int>>,
) -> PassState {
    if st.err is Some {
        st
    } else {
        let c = CtxSpec {
            width: input.width,
            height: input.height,
            rgba: input.pix(x, y),
            saved: st.saved,
            x: x as u32,
            y: y as u32,
            ignore_state: ignore,
        };
        let log = log_at(logs, st.k);
        let ok2 = st.ok && eval_draws_ok(tokens, c, input, log);
        match spec_eval(tokens, c, input, log) {
            Err(e) => PassState { k: st.k + 1, ok: ok2, err: Some(e), ..st },
            Ok(out) => PassState {
                pixels: st.pixels.update(y * input.width + x, out),
                saved: out.spec_rgb(),
                k: st.k + 1,
                ok: ok2,
                err: None,
            },
        }
    }
}

/// The first `cnt` pixels of column `x`, from row `y_lo` down.
pub open spec fn pass_rows(
    input: ImgSpec,
    tokens: Seq<Token>,
    ignore: bool,
    x: int,
    y_lo: int,
    cnt: nat,
    st: PassState,
    logs: Seq<Seq<int>>,
) -> PassState
    decreases cnt,
{
    if cnt == 0 {
        st
    } else {
        pass_cell(
            input,
            tokens,
            ignore,
            x,
            y_lo + cnt - 1,
            pass_rows(input, tokens, ignore, x, y_lo, (cnt - 1) as nat, st, logs),
            logs,
        )
    }
}

/// The first `ccnt` whole columns of the bounds rectangle, walked x-outer.
pub open spec fn pass_cols(
    input: ImgSpec,
    tokens: Seq<Token>,
    ignore: bool,
    x_lo: int,
    ccnt: nat,
    y_lo: int,
    rcnt: nat,
    st: PassState,
    logs: Seq<Seq<int>>,
) -> PassState
    decreases ccnt,
{
    if ccnt == 0 {
        st
    } else {
        pass_rows(
            input,
            tokens,
            ignore,
            x_lo + ccnt - 1,
            y_lo,
            rcnt,
            pass_cols(input, tokens, ignore, x_lo, (ccnt - 1) as nat, y_lo, rcnt, st, logs),
            logs,
        )
    }
}

/// One pass of one instruction sequence over one image: every pixel of the
/// tight non-zero bounds rectangle, inclusive on all sides, in column-major
/// order, with the carried color reset to black first. An image with no
/// non-zero pixel is left unchanged.
pub open spec fn spec_pass(
    input: ImgSpec,
    tokens: Seq<Token>,
    ignore: bool,
    logs: Seq<Seq<int>>,
) -> PassState {
    match spec_bounds(input) {
        None => pass_init(input),
        Some(b) => pass_cols(
            input,
            tokens,
            ignore,
            b.min_x as int,
            (b.max_x - b.min_x + 1) as nat,
            b.min_y as int,
            (b.max_y - b.min_y + 1) as nat,
            pass_init(input),
            logs,
        ),
    }
}

/// The result of applying a list of passes in order.
pub ghost struct ProcState {
    pub pixels: Seq<Rgba>,
    pub ok: bool,
    pub err: Option<EvalError>,
}

/// Sequential passes: each pass's full output is the next pass's input, and
/// the first error aborts the rest.
pub open spec fn spec_process(
    exprs: Seq<Seq<Token>>,
    img: ImgSpec,
    ignore: bool,
    logs: Seq<Seq<Seq<int>>>,
) -> ProcState
    decreases exprs.len(),
{
    if exprs.len() == 0 {
        ProcState { pixels: img.pixels, ok: true, err: None }
    } else {
        let prev = spec_process(exprs.drop_last(), img, ignore, logs);
        if prev.err is Some {
            prev
        } else {
            let pst = spec_pass(
                ImgSpec { width: img.width, height: img.height, pixels: prev.pixels },
                exprs.last(),
                ignore,
                pass_log_at(logs, exprs.len() - 1),
            );
            ProcState { pixels: pst.pixels, ok: prev.ok && pst.ok, err: pst.err }
        }
    }
}

/// Some sequence of random draws accounts for `pixels` as the output of the
/// whole run.
pub open spec fn process_ok(
    exprs: Seq<Seq<Token>>,
    img: ImgSpec,
    ignore: bool,
    pixels: Seq<Rgba>,
) -> bool {
    exists|logs: Seq<Seq<Seq<int>>>|
        {
            let ps = #[trigger] spec_process(exprs, img, ignore, logs);
            ps.err is None && ps.ok && pixels == ps.pixels
        }
}

/// Some sequence of random draws drives the run into the error `e`.
pub open spec fn process_err(exprs: Seq<Seq<Token>>, img: ImgSpec, ignore: bool, e: EvalError) -> bool {
    exists|logs: Seq<Seq<Seq<int>>>|
        {
            let ps = #[trigger] spec_process(exprs, img, ignore, logs);
            ps.err == Some(e) && ps.ok
        }
}

// --- lemmas about passes ---

/// A cell never loses evaluated pixels from the count.
proof fn lemma_cell_k_mono(
    input: ImgSpec,
    tokens: Seq<Token>,
    ignore: bool,
    x: int,
    y: int,
    st: PassState,
    logs: Seq<Seq<int>>,
)
    ensures
        pass_cell(input, tokens, ignore, x, y, st, logs).k >= st.k,
{
}

proof fn lemma_rows_k_mono(
    input: ImgSpec,
    tokens: Seq<Token>,
    ignore: bool,
    x: int,
    y_lo: int,
    cnt: nat,
    st: PassState,
    logs: Seq<Seq<int>>,
)
    ensures
        pass_rows(input, tokens, ignore, x, y_lo, cnt, st, logs).k >= st.k,
    decreases cnt,
{
    if cnt > 0 {
        lemma_rows_k_mono(input, tokens, ignore, x, y_lo, (cnt - 1) as nat, st, logs);
        lemma_cell_k_mono(
            input,
            tokens,
            ignore,
            x,
            y_lo + cnt - 1,
            pass_rows(input, tokens, ignore, x, y_lo, (cnt - 1) as nat, st, logs),
            logs,
        );
    }
}

proof fn lemma_cols_k_mono(
    input: ImgSpec,
    tokens: Seq<Token>,
    ignore: bool,
    x_lo: int,
    ccnt: nat,
    y_lo: int,
    rcnt: nat,
    st: PassState,
    logs: Seq<Seq<int>>,
)
    ensures
        pass_cols(input, tokens, ignore, x_lo, ccnt, y_lo, rcnt, st, logs).k >= st.k,
    decreases ccnt,
{
    if ccnt > 0 {
        lemma_cols_k_mono(input, tokens, ignore, x_lo, (ccnt - 1) as nat, y_lo, rcnt, st, logs);
        lemma_rows_k_mono(
            input,
            tokens,
            ignore,
            x_lo + ccnt - 1,
            y_lo,
            rcnt,
            pass_cols(input, tokens, ignore, x_lo, (ccnt - 1) as nat, y_lo, rcnt, st, logs),
            logs,
        );
    }
}

/// Two log lists that agree on every consumed index drive a column the same
/// way.
proof fn lemma_rows_logs_agree(
    input: ImgSpec,
    tokens: Seq<Token>,
    ignore: bool,
    x: int,
    y_lo: int,
    cnt: nat,
    st: PassState,
    l1: Seq<Seq<int>>,
    l2: Seq<Seq<int>>,
)
    requires
        forall|j: int|
            st.k <= j < pass_rows(input, tokens, ignore, x, y_lo, cnt, st, l1).k ==> log_at(l1, j)
                == log_at(l2, j),
    ensures
        pass_rows(input, tokens, ignore, x, y_lo, cnt, st, l1) == pass_rows(
            input,
            tokens,
            ignore,
            x,
            y_lo,
            cnt,
            st,
            l2,
        ),
    decreases cnt,
{
    if cnt > 0 {
        let mid1 = pass_rows(input, tokens, ignore, x, y_lo, (cnt - 1) as nat, st, l1);
        lemma_rows_k_mono(input, tokens, ignore, x, y_lo, (cnt - 1) as nat, st, l1);
        lemma_cell_k_mono(input, tokens, ignore, x, y_lo + cnt - 1, mid1, l1);
        lemma_rows_logs_agree(input, tokens, ignore, x, y_lo, (cnt - 1) as nat, st, l1, l2);
        assert(pass_cell(input, tokens, ignore, x, y_lo + cnt - 1, mid1, l1) == pass_cell(
            input,
            tokens,
            ignore,
            x,
            y_lo + cnt - 1,
            mid1,
            l2,
        ));
    }
}

proof fn lemma_cols_logs_agree(
    input: ImgSpec,
    tokens: Seq<Token>,
    ignore: bool,
    x_lo: int,
    ccnt: nat,
    y_lo: int,
    rcnt: nat,
    st: PassState,
    l1: Seq<Seq<int>>,
    l2: Seq<Seq<int>>,
)
    requires
        forall|j: int|
            st.k <= j < pass_cols(input, tokens, ignore, x_lo, ccnt, y_lo, rcnt, st, l1).k
                ==> log_at(l1, j) == log_at(l2, j),
    ensures
        pass_cols(input, tokens, ignore, x_lo, ccnt, y_lo, rcnt, st, l1) == pass_cols(
            input,
            tokens,
            ignore,
            x_lo,
            ccnt,
            y_lo,
            rcnt,
            st,
            l2,
        ),
    decreases ccnt,
{
    if ccnt > 0 {
        let mid1 = pass_cols(input, tokens, ignore, x_lo, (ccnt - 1) as nat, y_lo, rcnt, st, l1);
        lemma_cols_k_mono(input, tokens, ignore, x_lo, (ccnt - 1) as nat, y_lo, rcnt, st, l1);
        lemma_rows_k_mono(input, tokens, ignore, x_lo + ccnt - 1, y_lo, rcnt, mid1, l1);
        lemma_cols_logs_agree(
            input,
            tokens,
            ignore,
            x_lo,
            (ccnt - 1) as nat,
            y_lo,
            rcnt,
            st,
            l1,
            l2,
        );
        lemma_rows_logs_agree(input, tokens, ignore, x_lo + ccnt - 1, y_lo, rcnt, mid1, l1, l2);
    }
}

/// An error in a column freezes the rest of it.
proof fn lemma_rows_err(
    input: ImgSpec,
    tokens: Seq<Token>,
    ignore: bool,
    x: int,
    y_lo: int,
    cnt: nat,
    sub: nat,
    st: PassState,
    logs: Seq<Seq<int>>,
)
    requires
        sub <= cnt,
        pass_rows(input, tokens, ignore, x, y_lo, sub, st, logs).err is Some,
    ensures
        pass_rows(input, tokens, ignore, x, y_lo, cnt, st, logs) == pass_rows(
            input,
            tokens,
            ignore,
            x,
            y_lo,
            sub,
            st,
            logs,
        ),
    decreases cnt,
{
    if cnt > sub {
        lemma_rows_err(input, tokens, ignore, x, y_lo, (cnt - 1) as nat, sub, st, logs);
    }
}

/// An error in a pass freezes the remaining columns.
proof fn lemma_cols_err(
    input: ImgSpec,
    tokens: Seq<Token>,
    ignore: bool,
    x_lo: int,
    ccnt: nat,
    sub: nat,
    y_lo: int,
    rcnt: nat,
    st: PassState,
    logs: Seq<Seq<int>>,
)
    requires
        sub <= ccnt,
        pass_cols(input, tokens, ignore, x_lo, sub, y_lo, rcnt, st, logs).err is Some,
    ensures
        pass_cols(input, tokens, ignore, x_lo, ccnt, y_lo, rcnt, st, logs) == pass_cols(
            input,
            tokens,
            ignore,
            x_lo,
            sub,
            y_lo,
            rcnt,
            st,
            logs,
        ),
    decreases ccnt,
{
    if ccnt > sub {
        lemma_cols_err(input, tokens, ignore, x_lo, (ccnt - 1) as nat, sub, y_lo, rcnt, st, logs);
        let mid = pass_cols(input, tokens, ignore, x_lo, (ccnt - 1) as nat, y_lo, rcnt, st, logs);
        lemma_rows_err(input, tokens, ignore, x_lo + ccnt - 1, y_lo, rcnt, 0, mid, logs);
    }
}

/// A failed pass fails every longer expression list the same way.
proof fn lemma_process_prefix_err(
    exprs: Seq<Seq<Token>>,
    img: ImgSpec,
    ignore: bool,
    logs: Seq<Seq<Seq<int>>>,
    p: int,
)
    requires
        0 <= p <= exprs.len(),
        spec_process(exprs.take(p), img, ignore, logs).err is Some,
    ensures
        spec_process(exprs, img, ignore, logs) == spec_process(exprs.take(p), img, ignore, logs),
    decreases exprs.len() - p,
{
    if p < exprs.len() {
        assert(exprs.take(p + 1).drop_last() =~= exprs.take(p));
        lemma_process_prefix_err(exprs, img, ignore, logs, p + 1);
    } else {
        assert(exprs.take(p) =~= exprs);
    }
}

/// Extending one instruction list onto a processed prefix is one more pass.
proof fn lemma_process_snoc(
    exprs: Seq<Seq<Token>>,
    img: ImgSpec,
    ignore: bool,
    logs: Seq<Seq<Seq<int>>>,
    p: int,
)
    requires
        0 <= p < exprs.len(),
    ensures
        spec_process(exprs.take(p + 1), img, ignore, logs) == ({
            let prev = spec_process(exprs.take(p), img, ignore, logs);
            if prev.err is Some {
                prev
            } else {
                let pst = spec_pass(
                    ImgSpec { width: img.width, height: img.height, pixels: prev.pixels },
                    exprs[p],
                    ignore,
                    pass_log_at(logs, p),
                );
                ProcState { pixels: pst.pixels, ok: prev.ok && pst.ok, err: pst.err }
            }
        }),
{
    let s = exprs.take(p + 1);
    assert(s.drop_last() =~= exprs.take(p));
    assert(s.last() == exprs[p]);
}

/// A processed prefix only reads its own pass logs.
proof fn lemma_process_logs_agree(
    exprs: Seq<Seq<Token>>,
    img: ImgSpec,
    ignore: bool,
    l1: Seq<Seq<Seq<int>>>,
    l2: Seq<Seq<Seq<int>>>,
)
    requires
        forall|j: int| 0 <= j < exprs.len() ==> pass_log_at(l1, j) == pass_log_at(l2, j),
    ensures
        spec_process(exprs, img, ignore, l1) == spec_process(exprs, img, ignore, l2),
    decreases exprs.len(),
{
    if exprs.len() > 0 {
        lemma_process_logs_agree(exprs.drop_last(), img, ignore, l1, l2);
    }
}

// --- executable copies ---

/// A fresh vector with the same instructions.
fn clone_tokens(v: &Vec<Token>) -> (r: Vec<Token>)
    ensures
        r@ == v@,
{
    let mut r: Vec<Token> = Vec::new();
    let mut i: usize = 0;
    while i < v.len()
        invariant
            i <= v@.len(),
            r@ == v@.take(i as int),
        decreases v@.len() - i,
    {
        r.push(v[i]);
        proof {
            assert(r@ =~= v@.take(i as int + 1));
        }
        i = i + 1;
    }
    proof {
        assert(v@.take(v@.len() as int) =~= v@);
    }
    r
}

/// A fresh image with the same pixels.
fn duplicate_image(img: &Image) -> (r: Image)
    ensures
        r@ == img@,
{
    let mut pixels: Vec<Rgba> = Vec::new();
    let mut i: usize = 0;
    let n = img.pixels.len();
    while i < n
        invariant
            n == img.pixels@.len(),
            i <= n,
            pixels@ == img.pixels@.take(i as int),
        decreases n - i,
    {
        pixels.push(img.pixels[i]);
        proof {
            assert(pixels@ =~= img.pixels@.take(i as int + 1));
        }
        i = i + 1;
    }
    proof {
        assert(img.pixels@.take(n as int) =~= img.pixels@);
    }
    Image { width: img.width, height: img.height, pixels }
}

/// Evaluates one pixel of a pass and hands back the draw log the random
/// source produced for it.
fn eval_cell(
    input: &Image,
    tokens: &Vec<Token>,
    no_state: bool,
    rng: &mut StdRng,
    saved: Rgb,
    x: u32,
    y: u32,
) -> (res: (Result<Rgba, EvalError>, Ghost<Seq<int>>))
    requires
        input@.wf(),
        x < input@.width,
        y < input@.height,
    ensures
        ({
            let c = CtxSpec {
                width: input@.width,
                height: input@.height,
                rgba: input@.pix(x as int, y as int),
                saved,
                x,
                y,
                ignore_state: no_state,
            };
            eval_draws_ok(tokens@, c, input@, res.1@) && res.0 == spec_eval(
                tokens@,
                c,
                input@,
                res.1@,
            )
        }),
{
    let colors = input.get_pixel(x, y);
    let ctx = EvalContext {
        tokens: clone_tokens(tokens),
        size: (input.width, input.height),
        rgba: colors,
        saved_rgb: [saved.r, saved.g, saved.b],
        position: (x, y),
        ignore_state: no_state,
    };
    let ghost cspec = ctx.ctx();
    let ghost toks = tokens@;
    let result = eval(ctx, input, rng);
    let ghost w = choose|w: Seq<int>|
        #[trigger] eval_draws_ok(toks, cspec, input@, w) && result == spec_eval(
            toks,
            cspec,
            input@,
            w,
        );
    proof {
        assert(cspec == (CtxSpec {
            width: input@.width,
            height: input@.height,
            rgba: input@.pix(x as int, y as int),
            saved,
            x,
            y,
            ignore_state: no_state,
        }));
    }
    (result, Ghost(w))
}

/// Runs one pass of one instruction sequence over one image, and hands back
/// the cell draw logs that account for it.
#[verifier::rlimit(100)]
fn run_pass(
    input: &Image,
    tokens: &Vec<Token>,
    no_state: bool,
    rng: &mut StdRng,
) -> (res: (Result<Image, EvalError>, Ghost<Seq<Seq<int>>>))
    requires
        input@.wf(),
    ensures
        ({
            let pst = spec_pass(input@, tokens@, no_state, res.1@);
            match res.0 {
                Ok(out) => out@.wf() && out@.width == input@.width && out@.height == input@.height
                    && pst.err is None && pst.ok && out@.pixels == pst.pixels,
                Err(e) => pst.err == Some(e) && pst.ok,
            }
        }),
{
    let ghost pass_input = input@;
    let ghost toks = tokens@;
    let bounds_opt = find_non_zero_bounds(input);
    let b = match bounds_opt {
        None => {
            let out = duplicate_image(input);
            return (Ok(out), Ghost(Seq::empty()));
        },
        Some(b) => b,
    };
    let min_x = b.min_x();
    let max_x = b.max_x();
    let min_y = b.min_y();
    let max_y = b.max_y();
    proof {
        lemma_bounds_attained(pass_input, b);
        let wy = choose|yy: int| nz(pass_input, max_x as int, yy);
        let wx = choose|xx: int| nz(pass_input, xx, max_y as int);
        assert(pass_input.in_bounds(max_x as int, wy));
        assert(pass_input.in_bounds(wx, max_y as int));
    }
    let ghost rcnt = (max_y - min_y + 1) as nat;
    let ghost st0 = pass_init(pass_input);
    let mut output = duplicate_image(input);
    let mut sr: u8 = 0;
    let mut sg: u8 = 0;
    let mut sb: u8 = 0;
    let ghost mut cell_logs: Seq<Seq<int>> = Seq::empty();
    let mut x = min_x;
    while x <= max_x
        invariant
            pass_input.wf(),
            input@ == pass_input,
            toks == tokens@,
            min_x <= x,
            x <= max_x + 1,
            max_x < pass_input.width,
            max_y < pass_input.height,
            min_y <= max_y,
            min_x <= max_x,
            rcnt == (max_y - min_y + 1) as nat,
            st0 == pass_init(pass_input),
            spec_bounds(pass_input) == Some(
                Bounds { min_x, min_y, max_x, max_y },
            ),
            output@.wf(),
            output@.width == pass_input.width,
            output@.height == pass_input.height,
            pass_cols(
                pass_input,
                toks,
                no_state,
                min_x as int,
                (x - min_x) as nat,
                min_y as int,
                rcnt,
                st0,
                cell_logs,
            ) == (PassState {
                pixels: output@.pixels,
                saved: Rgb { r: sr, g: sg, b: sb },
                k: cell_logs.len() as int,
                ok: true,
                err: None,
            }),
        decreases max_x + 1 - x,
    {
        let ghost col_base = pass_cols(
            pass_input,
            toks,
            no_state,
            min_x as int,
            (x - min_x) as nat,
            min_y as int,
            rcnt,
            st0,
            cell_logs,
        );
        let mut y = min_y;
        while y <= max_y
            invariant
                pass_input.wf(),
                input@ == pass_input,
                toks == tokens@,
                min_x <= x <= max_x,
                min_y <= y,
                y <= max_y + 1,
                max_x < pass_input.width,
                max_y < pass_input.height,
                min_y <= max_y,
                rcnt == (max_y - min_y + 1) as nat,
                st0 == pass_init(pass_input),
                min_x <= max_x,
                spec_bounds(pass_input) == Some(Bounds { min_x, min_y, max_x, max_y }),
                output@.wf(),
                output@.width == pass_input.width,
                output@.height == pass_input.height,
                col_base == pass_cols(
                    pass_input,
                    toks,
                    no_state,
                    min_x as int,
                    (x - min_x) as nat,
                    min_y as int,
                    rcnt,
                    st0,
                    cell_logs,
                ),
                pass_rows(
                    pass_input,
                    toks,
                    no_state,
                    x as int,
                    min_y as int,
                    (y - min_y) as nat,
                    col_base,
                    cell_logs,
                ) == (PassState {
                    pixels: output@.pixels,
                    saved: Rgb { r: sr, g: sg, b: sb },
                    k: cell_logs.len() as int,
                    ok: true,
                    err: None,
                }),
            decreases max_y + 1 - y,
        {
            let ghost row_state = pass_rows(
                pass_input,
                toks,
                no_state,
                x as int,
                min_y as int,
                (y - min_y) as nat,
                col_base,
                cell_logs,
            );
            let ghost logs_before = cell_logs;
            let res = eval_cell(input, tokens, no_state, rng, Rgb { r: sr, g: sg, b: sb }, x, y);
            proof {
                cell_logs = cell_logs.push(res.1@);
                assert(log_at(cell_logs, row_state.k) == res.1@);
                lemma_rows_k_mono(
                    pass_input,
                    toks,
                    no_state,
                    x as int,
                    min_y as int,
                    (y - min_y) as nat,
                    col_base,
                    logs_before,
                );
                assert(col_base.k <= logs_before.len());
                assert(forall|j: int|
                    0 <= j < logs_before.len() ==> log_at(logs_before, j) == log_at(cell_logs, j));
                lemma_cols_k_mono(
                    pass_input,
                    toks,
                    no_state,
                    min_x as int,
                    (x - min_x) as nat,
                    min_y as int,
                    rcnt,
                    st0,
                    logs_before,
                );
                lemma_cols_logs_agree(
                    pass_input,
                    toks,
                    no_state,
                    min_x as int,
                    (x - min_x) as nat,
                    min_y as int,
                    rcnt,
                    st0,
                    logs_before,
                    cell_logs,
                );
                lemma_rows_logs_agree(
                    pass_input,
                    toks,
                    no_state,
                    x as int,
                    min_y as int,
                    (y - min_y) as nat,
                    col_base,
                    logs_before,
                    cell_logs,
                );
                assert(pass_rows(
                    pass_input,
                    toks,
                    no_state,
                    x as int,
                    min_y as int,
                    (y - min_y) as nat,
                    col_base,
                    cell_logs,
                ) == row_state);
            }
            match res.0 {
                Err(e) => {
                    proof {
                        let st_err = pass_cell(
                            pass_input,
                            toks,
                            no_state,
                            x as int,
                            y as int,
                            row_state,
                            cell_logs,
                        );
                        assert(pass_rows(
                            pass_input,
                            toks,
                            no_state,
                            x as int,
                            min_y as int,
                            (y - min_y + 1) as nat,
                            col_base,
                            cell_logs,
                        ) == st_err);
                        lemma_rows_err(
                            pass_input,
                            toks,
                            no_state,
                            x as int,
                            min_y as int,
                            rcnt,
                            (y - min_y + 1) as nat,
                            col_base,
                            cell_logs,
                        );
                        assert(pass_cols(
                            pass_input,
                            toks,
                            no_state,
                            min_x as int,
                            (x - min_x + 1) as nat,
                            min_y as int,
                            rcnt,
                            st0,
                            cell_logs,
                        ) == st_err);
                        lemma_cols_err(
                            pass_input,
                            toks,
                            no_state,
                            min_x as int,
                            (max_x - min_x + 1) as nat,
                            (x - min_x + 1) as nat,
                            min_y as int,
                            rcnt,
                            st0,
                            cell_logs,
                        );
                        assert(spec_pass(pass_input, toks, no_state, cell_logs) == st_err);
                    }
                    return (Err(e), Ghost(cell_logs));
                },
                Ok(out) => {
                    sr = out.r;
                    sg = out.g;
                    sb = out.b;
                    output.put_pixel(x, y, out);
                    proof {
                        assert(pass_rows(
                            pass_input,
                            toks,
                            no_state,
                            x as int,
                            min_y as int,
                            (y - min_y + 1) as nat,
                            col_base,
                            cell_logs,
                        ) == (PassState {
                            pixels: output@.pixels,
                            saved: Rgb { r: sr, g: sg, b: sb },
                            k: cell_logs.len() as int,
                            ok: true,
                            err: None,
                        }));
                    }
                },
            }
            y = y + 1;
        }
        proof {
            assert(pass_cols(
                pass_input,
                toks,
                no_state,
                min_x as int,
                (x - min_x + 1) as nat,
                min_y as int,
                rcnt,
                st0,
                cell_logs,
            ) == pass_rows(
                pass_input,
                toks,
                no_state,
                x as int,
                min_y as int,
                rcnt,
                pass_cols(
                    pass_input,
                    toks,
                    no_state,
                    min_x as int,
                    (x - min_x) as nat,
                    min_y as int,
                    rcnt,
                    st0,
                    cell_logs,
                ),
                cell_logs,
            ));
        }
        x = x + 1;
    }
    proof {
        assert(spec_pass(pass_input, toks, no_state, cell_logs) == (PassState {
            pixels: output@.pixels,
            saved: Rgb { r: sr, g: sg, b: sb },
            k: cell_logs.len() as int,
            ok: true,
            err: None,
        }));
    }
    (Ok(output), Ghost(cell_logs))
}

/// Applies each compiled expression as one pass over the image, in order:
/// bounds are recomputed on each pass's input, the pixels of the bounds
/// rectangle are evaluated column-major with the carried color threaded
/// through, and each pass's full output is the next pass's input. The first
/// evaluation error aborts the whole run.
pub fn process(
    img: Image,
    expressions: &Vec<(String, Vec<Token>)>,
    no_state: bool,
    rng: &mut StdRng,
) -> (r: Result<Image, EvalError>)
    requires
        img@.wf(),
    ensures
        ({
            let exprs = expressions@.map_values(|p: (String, Vec<Token>)| p.1@);
            match r {
                Ok(out) => {
                    &&& out@.wf()
                    &&& out@.width == img@.width
                    &&& out@.height == img@.height
                    &&& process_ok(exprs, img@, no_state, out@.pixels)
                },
                Err(e) => process_err(exprs, img@, no_state, e),
            }
        }),
{
    let ghost exprs = expressions@.map_values(|p: (String, Vec<Token>)| p.1@);
    let ghost img0 = img@;
    let mut current = img;
    let ghost mut logs: Seq<Seq<Seq<int>>> = Seq::empty();
    let m = expressions.len();
    let mut p: usize = 0;
    while p < m
        invariant
            img0 == img@,
            img0.wf(),
            current@.wf(),
            current@.width == img0.width,
            current@.height == img0.height,
            m == expressions@.len(),
            exprs == expressions@.map_values(|q: (String, Vec<Token>)| q.1@),
            p <= m,
            logs.len() == p,
            spec_process(exprs.take(p as int), img0, no_state, logs) == (ProcState {
                pixels: current@.pixels,
                ok: true,
                err: None,
            }),
        decreases m - p,
    {
        let ghost logs_pre = logs;
        let tokens: &Vec<Token> = &expressions[p].1;
        proof {
            assert(exprs[p as int] == tokens@);
        }
        let res = run_pass(&current, tokens, no_state, rng);
        proof {
            logs = logs.push(res.1@);
            assert(pass_log_at(logs, p as int) == res.1@);
            assert(forall|j: int|
                0 <= j < exprs.take(p as int).len() ==> pass_log_at(logs_pre, j) == pass_log_at(
                    logs,
                    j,
                ));
            lemma_process_logs_agree(exprs.take(p as int), img0, no_state, logs_pre, logs);
            lemma_process_snoc(exprs, img0, no_state, logs, p as int);
        }
        match res.0 {
            Ok(out) => {
                current = out;
            },
            Err(e) => {
                proof {
                    lemma_process_prefix_err(exprs, img0, no_state, logs, p as int + 1);
                    assert(spec_process(exprs, img0, no_state, logs).err == Some(e));
                    assert(spec_process(exprs, img0, no_state, logs).ok);
                    assert(process_err(exprs, img0, no_state, e));
                }
                return Err(e);
            },
        }
        p = p + 1;
    }
    proof {
        assert(exprs.take(m as int) =~= exprs);
        assert(process_ok(exprs, img0, no_state, current@.pixels));
    }
    Ok(current)
}

} // verus!
