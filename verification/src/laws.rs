use vstd::prelude::*;
use crate::eval::{
    gray, spec_eval, spec_run, spec_sample_rgb, spec_step, spec_step_var, vm_init, CtxSpec,
    VmState,
};
use crate::img::ImgSpec;
use crate::ops::{add_ch, binop_ch, div_ch, is_binop, mod_ch, sub_ch};
use crate::rgb::{Rgb, Rgba};
use crate::token::{EvalError, Token};

verus! {

/// A three-instruction run is three steps from the initial state.
proof fn lemma_run3(t0: Token, t1: Token, t2: Token, c: CtxSpec, img: ImgSpec, draws: Seq<int>)
    ensures
        spec_run(seq![t0, t1, t2], c, img, draws) == spec_step(
            spec_step(
                spec_step(vm_init(), t0, c, img, draws),
                t1,
                c,
                img,
                draws,
            ),
            t2,
            c,
            img,
            draws,
        ),
{
    let s3 = seq![t0, t1, t2];
    let s2 = seq![t0, t1];
    let s1 = seq![t0];
    assert(s3.drop_last() =~= s2);
    assert(s2.drop_last() =~= s1);
    assert(s1.drop_last() =~= Seq::<Token>::empty());
    assert(s1.last() == t0 && s2.last() == t1 && s3.last() == t2);
    assert(spec_run(Seq::<Token>::empty(), c, img, draws) == vm_init());
    assert(spec_run(s1, c, img, draws) == spec_step(vm_init(), t0, c, img, draws));
    assert(spec_run(s2, c, img, draws) == spec_step(
        spec_run(s1, c, img, draws),
        t1,
        c,
        img,
        draws,
    ));
    assert(spec_run(s3, c, img, draws) == spec_step(
        spec_run(s2, c, img, draws),
        t2,
        c,
        img,
        draws,
    ));
}

/// A numeric literal evaluates to the gray color of its value — all three
/// channels equal to the literal — under the pixel's own alpha.
pub proof fn lemma_literal_gray(n: u8, c: CtxSpec, img: ImgSpec, draws: Seq<int>)
    requires
        c.rgba.a != 0,
    ensures
        spec_eval(seq![Token::Num(n)], c, img, draws) == Ok::<Rgba, EvalError>(
            Rgba { r: n, g: n, b: n, a: c.rgba.a },
        ),
{
    reveal(spec_step);
    let s1 = seq![Token::Num(n)];
    assert(s1.drop_last() =~= Seq::<Token>::empty());
    assert(s1.last() == Token::Num(n));
    assert(spec_run(Seq::<Token>::empty(), c, img, draws) == vm_init());
    assert(spec_run(s1, c, img, draws) == spec_step(vm_init(), Token::Num(n), c, img, draws));
    assert(spec_run(s1, c, img, draws).stack =~= seq![gray(n)]);
}

/// Two literals and a binary operator evaluate to the operator applied to
/// them, channel by channel.
pub proof fn lemma_two_literals(a: u8, b: u8, op: Token, c: CtxSpec, img: ImgSpec, draws: Seq<int>)
    requires
        c.rgba.a != 0,
        is_binop(op),
    ensures
        spec_eval(seq![Token::Num(a), Token::Num(b), op], c, img, draws) == Ok::<Rgba, EvalError>(
            Rgba {
                r: binop_ch(op, a, b),
                g: binop_ch(op, a, b),
                b: binop_ch(op, a, b),
                a: c.rgba.a,
            },
        ),
{
    reveal(spec_step);
    lemma_run3(Token::Num(a), Token::Num(b), op, c, img, draws);
    let st1 = spec_step(vm_init(), Token::Num(a), c, img, draws);
    let st2 = spec_step(st1, Token::Num(b), c, img, draws);
    let st3 = spec_step(st2, op, c, img, draws);
    assert(st2.stack.len() == 2);
    assert(st2.stack[0] == gray(a) && st2.stack[1] == gray(b));
    assert(st3.err is None);
    assert(st3.stack =~= st2.stack.take(0).push(
        crate::ops::binop_rgb(op, gray(a), gray(b)),
    ));
    assert(st3.stack.len() == 1);
}

/// Division and remainder treat a zero divisor as the identity: the dividend
/// comes back unchanged, for every channel value.
pub proof fn lemma_div_mod_by_zero(a: u8, c: CtxSpec, img: ImgSpec, draws: Seq<int>)
    requires
        c.rgba.a != 0,
    ensures
        div_ch(a, 0) == a,
        mod_ch(a, 0) == a,
        spec_eval(seq![Token::Num(a), Token::Num(0), Token::Div], c, img, draws) == Ok::<
            Rgba,
            EvalError,
        >(Rgba { r: a, g: a, b: a, a: c.rgba.a }),
        spec_eval(seq![Token::Num(a), Token::Num(0), Token::Mod], c, img, draws) == Ok::<
            Rgba,
            EvalError,
        >(Rgba { r: a, g: a, b: a, a: c.rgba.a }),
{
    lemma_two_literals(a, 0, Token::Div, c, img, draws);
    lemma_two_literals(a, 0, Token::Mod, c, img, draws);
}

/// Addition is commutative and wraps modulo 256, at the channel level and at
/// the instruction level.
pub proof fn lemma_add_commutes(a: u8, b: u8, c: CtxSpec, img: ImgSpec, draws: Seq<int>)
    requires
        c.rgba.a != 0,
    ensures
        add_ch(a, b) == add_ch(b, a),
        add_ch(a, b) == (a + b) % 256,
        spec_eval(seq![Token::Num(a), Token::Num(b), Token::Add], c, img, draws) == spec_eval(
            seq![Token::Num(b), Token::Num(a), Token::Add],
            c,
            img,
            draws,
        ),
{
    lemma_two_literals(a, b, Token::Add, c, img, draws);
    lemma_two_literals(b, a, Token::Add, c, img, draws);
}

/// The deterministic stateful variables — luma, blur, edge, the extrema and
/// the mirrors — yield the same value on both occurrences within one
/// evaluation, whether or not memoization is enabled: subtracting an
/// expression from itself gives black.
pub proof fn lemma_memo_deterministic(v: char, c: CtxSpec, img: ImgSpec, draws: Seq<int>)
    requires
        c.rgba.a != 0,
        v == 'Y' || v == 'b' || v == 'e' || v == 'H' || v == 'L' || v == 'h' || v == 'v' || v
            == 'd',
    ensures
        spec_eval(seq![Token::Char(v), Token::Char(v), Token::Sub], c, img, draws) == Ok::<
            Rgba,
            EvalError,
        >(Rgba { r: 0, g: 0, b: 0, a: c.rgba.a }),
{
    reveal(spec_step);
    reveal(spec_step_var);
    lemma_run3(Token::Char(v), Token::Char(v), Token::Sub, c, img, draws);
    let st1 = spec_step(vm_init(), Token::Char(v), c, img, draws);
    let st2 = spec_step(st1, Token::Char(v), c, img, draws);
    let st3 = spec_step(st2, Token::Sub, c, img, draws);
    assert(st2.stack.len() == 2);
    assert(st2.stack[0] == st2.stack[1]);
    let w = st2.stack[0];
    assert(st3.stack.len() == 1);
    assert(st3.stack[0] == crate::ops::binop_rgb(Token::Sub, w, w));
    assert(sub_ch(w.r, w.r) == 0);
    assert(sub_ch(w.g, w.g) == 0);
    assert(sub_ch(w.b, w.b) == 0);
}

/// With memoization enabled, two random samples of the same radius reuse one
/// sample: subtracting them gives black.
pub proof fn lemma_random_same_radius(num: u8, c: CtxSpec, img: ImgSpec, draws: Seq<int>)
    requires
        c.rgba.a != 0,
        !c.ignore_state,
    ensures
        spec_eval(seq![Token::Random(num), Token::Random(num), Token::Sub], c, img, draws) == Ok::<
            Rgba,
            EvalError,
        >(Rgba { r: 0, g: 0, b: 0, a: c.rgba.a }),
{
    reveal(spec_step);
    lemma_run3(Token::Random(num), Token::Random(num), Token::Sub, c, img, draws);
    let st1 = spec_step(vm_init(), Token::Random(num), c, img, draws);
    assert(vm_init().memo.v_r[num as int] is None);
    let s = spec_sample_rgb(img, c.x as int, c.y as int, draws, 0);
    assert(st1.memo.v_r[num as int] == Some(s));
    let st2 = spec_step(st1, Token::Random(num), c, img, draws);
    assert(st2.stack.len() == 2);
    assert(st2.stack[0] == s && st2.stack[1] == s);
    let st3 = spec_step(st2, Token::Sub, c, img, draws);
    assert(st3.stack.len() == 1);
    assert(sub_ch(s.r, s.r) == 0 && sub_ch(s.g, s.g) == 0 && sub_ch(s.b, s.b) == 0);
}

/// Two random samples of distinct radii draw independently: the first reads
/// the first six values of the draw log, the second the next six.
pub proof fn lemma_random_distinct_radii(
    n: u8,
    m: u8,
    c: CtxSpec,
    img: ImgSpec,
    draws: Seq<int>,
)
    requires
        c.rgba.a != 0,
        n != m,
    ensures
        ({
            let s1 = spec_sample_rgb(img, c.x as int, c.y as int, draws, 0);
            let s2 = spec_sample_rgb(img, c.x as int, c.y as int, draws, 6);
            spec_eval(seq![Token::Random(n), Token::Random(m), Token::Add], c, img, draws)
                == Ok::<Rgba, EvalError>(
                Rgba {
                    r: add_ch(s1.r, s2.r),
                    g: add_ch(s1.g, s2.g),
                    b: add_ch(s1.b, s2.b),
                    a: c.rgba.a,
                },
            )
        }),
{
    reveal(spec_step);
    lemma_run3(Token::Random(n), Token::Random(m), Token::Add, c, img, draws);
    let s1 = spec_sample_rgb(img, c.x as int, c.y as int, draws, 0);
    let s2 = spec_sample_rgb(img, c.x as int, c.y as int, draws, 6);
    let st1 = spec_step(vm_init(), Token::Random(n), c, img, draws);
    assert(vm_init().memo.v_r[n as int] is None);
    assert(st1.di == 6);
    assert(st1.memo.v_r[m as int] is None);
    let st2 = spec_step(st1, Token::Random(m), c, img, draws);
    assert(st2.stack.len() == 2);
    assert(st2.stack[0] == s1 && st2.stack[1] == s2);
    let st3 = spec_step(st2, Token::Add, c, img, draws);
    assert(st3.stack.len() == 1);
}

/// A fully transparent pixel evaluates to fully transparent black, whatever
/// the instruction sequence and whatever the random source produced.
pub proof fn lemma_transparent_pixel(
    tokens: Seq<Token>,
    c: CtxSpec,
    img: ImgSpec,
    draws: Seq<int>,
)
    requires
        c.rgba.a == 0,
    ensures
        spec_eval(tokens, c, img, draws) == Ok::<Rgba, EvalError>(Rgba { r: 0, g: 0, b: 0, a: 0 }),
{
}

} // verus!
