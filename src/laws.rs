//! Properties of block convolution that relate several calls, proved over
//! the spec functions that the engine's contracts use.
use crate::fast_convolver::{cyclic_sum, extended_block, ConvolutionMode, ConvolverModel};
use crate::partition::extended_partition_of;
use crate::signal::{
    block_output, conv_at, conv_sum, convolution, lemma_conv_sum_outside, lemma_sum_add,
    lemma_sum_ext, lemma_sum_scale, lemma_sum_split, next_pending, sample, tap, zeros,
};
use vstd::prelude::*;

verus! {

/// A response whose only coefficient that may differ from zero is the one at `d`.
pub open spec fn single_tap(h: Seq<int>, d: int) -> bool {
    &&& 0 <= d < h.len()
    &&& forall|k: int| 0 <= k < h.len() && k != d ==> #[trigger] h[k] == 0
}

/// The response `[1, 0, ..., 0]`.
pub open spec fn is_identity_response(h: Seq<int>) -> bool {
    single_tap(h, 0) && h[0] == 1
}

/// `c * u + v`, position by position.
pub open spec fn combine(c: int, u: Seq<int>, v: Seq<int>) -> Seq<int> {
    Seq::new(u.len(), |i: int| c * u[i] + v[i])
}

/// Pending energy after the first `k` blocks of `b` samples of `x`, starting
/// from `p`.
pub open spec fn stream_state(p: Seq<int>, x: Seq<int>, h: Seq<int>, b: nat, k: nat) -> Seq<int>
    decreases k,
{
    if k == 0 {
        p
    } else {
        next_pending(
            stream_state(p, x, h, b, (k - 1) as nat),
            x.subrange((k - 1) * b, (k * b) as int),
            h,
        )
    }
}

/// Output blocks of the first `k` blocks of `b` samples of `x`, one after the
/// other, starting from `p`.
pub open spec fn stream_outputs(p: Seq<int>, x: Seq<int>, h: Seq<int>, b: nat, k: nat) -> Seq<int>
    decreases k,
{
    if k == 0 {
        Seq::empty()
    } else {
        stream_outputs(p, x, h, b, (k - 1) as nat) + block_output(
            stream_state(p, x, h, b, (k - 1) as nat),
            x.subrange((k - 1) * b, (k * b) as int),
            h,
        )
    }
}

/// What a fresh engine with `cap` pending positions hands out for the stream
/// `x` cut into blocks of `b`: every output block, then the whole tail.
pub open spec fn stream_result(h: Seq<int>, b: nat, cap: nat, x: Seq<int>) -> Seq<int> {
    let k = x.len() / b;
    stream_outputs(zeros(cap), x, h, b, k) + stream_state(zeros(cap), x, h, b, k).subrange(
        0,
        h.len() - 1,
    )
}

/// Value at output position `t` as the frequency-domain strategy forms it:
/// from the cyclic products of period `2b` of the extended block with the
/// extended partition that `t` falls in and with the one before it.
pub open spec fn spectral_value(x: Seq<int>, ir: Seq<int>, b: nat, t: int) -> int {
    let i1 = t / (b as int);
    let s1 = t % (b as int);
    let xp = extended_block(x, b);
    cyclic_sum(xp, extended_partition_of(ir, b, i1), s1, 2 * b, 2 * b) + if i1 >= 1 {
        cyclic_sum(xp, extended_partition_of(ir, b, i1 - 1), s1 + b, 2 * b, 2 * b)
    } else {
        0
    }
}

/// A response with a single coefficient `h[d]` delays the input by `d`
/// samples and scales it by `h[d]`.
pub proof fn lemma_single_tap(x: Seq<int>, h: Seq<int>, d: int, t: int, n: nat)
    requires
        single_tap(h, d),
    ensures
        conv_sum(x, h, t, n) == if 0 <= t - d < n {
            sample(x, t - d) * h[d]
        } else {
            0
        },
    decreases n,
{
    if n > 0 {
        lemma_single_tap(x, h, d, t, (n - 1) as nat);
        let a = n - 1;
        if t - a != d && 0 <= t - a < h.len() {
            assert(h[t - a] == 0);
        }
    }
}

/// Convolving the concatenation of two blocks is convolving each, the second
/// one shifted by the first one's length.
pub proof fn lemma_conv_concat(x1: Seq<int>, x2: Seq<int>, h: Seq<int>, t: int)
    ensures
        conv_at(x1 + x2, h, t) == conv_at(x1, h, t) + conv_at(x2, h, t - x1.len()),
{
    let x = x1 + x2;
    let n1 = x1.len();
    let f = |a: int| sample(x, a) * tap(h, t - a);
    let g = |a: int| sample(x, n1 + a) * tap(h, t - (n1 + a));
    let f1 = |a: int| sample(x1, a) * tap(h, t - a);
    let g2 = |a: int| sample(x2, a) * tap(h, (t - n1) - a);
    lemma_sum_split(f, g, n1, x2.len());
    assert forall|a: int| 0 <= a < n1 implies #[trigger] f(a) == f1(a) by {
        assert(sample(x, a) == sample(x1, a));
    }
    lemma_sum_ext(f, f1, n1);
    assert forall|a: int| 0 <= a < x2.len() implies #[trigger] g(a) == g2(a) by {
        assert(sample(x, n1 + a) == sample(x2, a));
        assert(t - (n1 + a) == (t - n1) - a);
    }
    lemma_sum_ext(g, g2, x2.len());
}

/// Identity response: with nothing pending, every output block equals its
/// input block and nothing becomes pending, so later blocks and every flush
/// see only zeros.
pub proof fn lemma_identity_response(h: Seq<int>, p: Seq<int>, x: Seq<int>)
    requires
        is_identity_response(h),
        p == zeros(p.len()),
        p.len() >= x.len(),
    ensures
        block_output(p, x, h) == x,
        next_pending(p, x, h) == p,
{
    assert forall|i: int| 0 <= i < x.len() implies #[trigger] block_output(p, x, h)[i] == x[i] by {
        lemma_single_tap(x, h, 0, i, x.len());
    }
    assert(block_output(p, x, h) =~= x);
    assert forall|j: int| 0 <= j < p.len() implies #[trigger] next_pending(p, x, h)[j] == p[j] by {
        lemma_single_tap(x, h, 0, x.len() + j, x.len());
    }
    assert(next_pending(p, x, h) =~= p);
}

/// Pure delayed gain: with the response `[1, 0, ..., 0, g]` of eleven
/// coefficients, blocks of ten samples and nothing pending, the output block
/// is the input block, and the ten pending samples that follow are the
/// input scaled by `g`, with nothing after them.
pub proof fn lemma_delayed_gain(h: Seq<int>, p: Seq<int>, x: Seq<int>, g: int)
    requires
        h.len() == 11,
        h[0] == 1,
        h[10] == g,
        forall|k: int| 1 <= k < 10 ==> #[trigger] h[k] == 0,
        x.len() == 10,
        p == zeros(p.len()),
        p.len() >= 10,
    ensures
        block_output(p, x, h) == x,
        forall|j: int| 0 <= j < 10 ==> #[trigger] next_pending(p, x, h)[j] == x[j] * g,
        forall|j: int| 10 <= j < p.len() ==> #[trigger] next_pending(p, x, h)[j] == 0,
{
    let h1 = Seq::new(11, |k: int| if k == 0 { 1int } else { 0 });
    let h2 = Seq::new(11, |k: int| if k == 10 { g } else { 0 });
    assert(single_tap(h1, 0));
    assert(single_tap(h2, 10));
    assert forall|t: int| #[trigger] conv_sum(x, h, t, 10) == conv_sum(x, h1, t, 10) + conv_sum(
        x,
        h2,
        t,
        10,
    ) by {
        let f = |a: int| sample(x, a) * tap(h, t - a);
        let f1 = |a: int| sample(x, a) * tap(h1, t - a);
        let f2 = |a: int| sample(x, a) * tap(h2, t - a);
        assert forall|a: int| 0 <= a < 10 implies #[trigger] f(a) == f1(a) + f2(a) by {
            assert(tap(h, t - a) == tap(h1, t - a) + tap(h2, t - a));
            assert(sample(x, a) * (tap(h1, t - a) + tap(h2, t - a)) == sample(x, a) * tap(
                h1,
                t - a,
            ) + sample(x, a) * tap(h2, t - a)) by (nonlinear_arith);
        }
        lemma_sum_add(f1, f2, f, 10);
        lemma_single_tap(x, h1, 0, t, 10);
        lemma_single_tap(x, h2, 10, t, 10);
    }
    assert forall|i: int| 0 <= i < 10 implies #[trigger] block_output(p, x, h)[i] == x[i] by {
        assert(conv_sum(x, h, i, 10) == conv_sum(x, h1, i, 10) + conv_sum(x, h2, i, 10));
        lemma_single_tap(x, h1, 0, i, 10);
        lemma_single_tap(x, h2, 10, i, 10);
    }
    assert(block_output(p, x, h) =~= x);
    assert forall|j: int| 0 <= j < p.len() implies #[trigger] next_pending(p, x, h)[j] == if j
        < 10 {
        x[j] * g
    } else {
        0
    } by {
        assert(conv_sum(x, h, 10 + j, 10) == conv_sum(x, h1, 10 + j, 10) + conv_sum(
            x,
            h2,
            10 + j,
            10,
        ));
        lemma_single_tap(x, h1, 0, 10 + j, 10);
        lemma_single_tap(x, h2, 10, 10 + j, 10);
    }
}

/// Mode equivalence: engines that differ only in their mode produce the same
/// output block for the same input and stay alike afterwards, whether they
/// process a block or hand out pending samples.
pub proof fn lemma_mode_equivalence(t: ConvolverModel, f: ConvolverModel, x: Seq<int>, n: nat)
    requires
        t.mode == ConvolutionMode::TimeDomain,
        f.mode == ConvolutionMode::FrequencyDomain,
        f == (ConvolverModel { mode: ConvolutionMode::FrequencyDomain, ..t }),
    ensures
        block_output(t.pending, x, t.ir) == block_output(f.pending, x, f.ir),
        f.processed(x) == (ConvolverModel {
            mode: ConvolutionMode::FrequencyDomain,
            ..t.processed(x)
        }),
        f.advanced(n) == (ConvolverModel { mode: ConvolutionMode::FrequencyDomain, ..t.advanced(n) }),
{
}

/// Tail-length invariant: processing blocks, handing out pending samples and
/// resetting leave the response, so the tail stays one sample shorter than
/// the response whatever the history.
pub proof fn lemma_tail_size_invariant(c: ConvolverModel, x: Seq<int>, n: nat)
    requires
        c.valid(),
    ensures
        c.tail_size() == c.ir.len() - 1,
        c.processed(x).tail_size() == c.tail_size(),
        c.advanced(n).tail_size() == c.tail_size(),
        c.cleared().tail_size() == c.tail_size(),
{
}

/// The two strategies agree at every output position: the value gathered
/// from the cyclic products of extended blocks equals the direct sum.
pub proof fn lemma_strategies_agree(x: Seq<int>, ir: Seq<int>, b: nat, t: int)
    requires
        x.len() == b,
        b >= 1,
        t >= 0,
    ensures
        spectral_value(x, ir, b, t) == conv_at(x, ir, t),
{
    let i1 = t / (b as int);
    let s1 = t % (b as int);
    vstd::arithmetic::div_mod::lemma_fundamental_div_mod(t, b as int);
    assert(t == i1 * b + s1) by (nonlinear_arith)
        requires
            t == b * i1 + s1,
    ;
    assert(i1 >= 0) by (nonlinear_arith)
        requires
            t >= 0,
            b >= 1,
            i1 == t / (b as int),
    ;
    crate::fast_convolver::lemma_cyclic_is_linear(x, ir, b, i1, s1);
    if i1 >= 1 {
        crate::fast_convolver::lemma_cyclic_is_linear(x, ir, b, i1 - 1, s1 + b);
    }
    crate::fast_convolver::lemma_partition_pair(x, ir, b, t, i1, s1);
}

/// Linearity: the output block and the new pending energy for
/// `c * x1 + x2` after `c * p1 + p2` are `c` times those for `x1` after
/// `p1` plus those for `x2` after `p2`.
pub proof fn lemma_linearity(h: Seq<int>, c: int, x1: Seq<int>, x2: Seq<int>, p1: Seq<int>, p2: Seq<int>)
    requires
        x1.len() == x2.len(),
        p1.len() == p2.len(),
        p1.len() >= x1.len(),
    ensures
        block_output(combine(c, p1, p2), combine(c, x1, x2), h) == combine(
            c,
            block_output(p1, x1, h),
            block_output(p2, x2, h),
        ),
        next_pending(combine(c, p1, p2), combine(c, x1, x2), h) == combine(
            c,
            next_pending(p1, x1, h),
            next_pending(p2, x2, h),
        ),
{
    let x = combine(c, x1, x2);
    let n = x1.len();
    assert forall|t: int| #[trigger] conv_at(x, h, t) == c * conv_at(x1, h, t) + conv_at(x2, h, t) by {
        let f = |a: int| sample(x, a) * tap(h, t - a);
        let f1 = |a: int| sample(x1, a) * tap(h, t - a);
        let cf1 = |a: int| c * (sample(x1, a) * tap(h, t - a));
        let f2 = |a: int| sample(x2, a) * tap(h, t - a);
        assert forall|a: int| 0 <= a < n implies #[trigger] f(a) == cf1(a) + f2(a) by {
            assert(sample(x, a) == c * sample(x1, a) + sample(x2, a));
            assert((c * sample(x1, a) + sample(x2, a)) * tap(h, t - a) == c * (sample(x1, a) * tap(
                h,
                t - a,
            )) + sample(x2, a) * tap(h, t - a)) by (nonlinear_arith);
        }
        lemma_sum_add(cf1, f2, f, n);
        lemma_sum_scale(f1, cf1, c, n);
    }
    let p = combine(c, p1, p2);
    assert forall|i: int| 0 <= i < n implies #[trigger] block_output(p, x, h)[i] == combine(
        c,
        block_output(p1, x1, h),
        block_output(p2, x2, h),
    )[i] by {
        assert(c * (p1[i] + conv_at(x1, h, i)) == c * p1[i] + c * conv_at(x1, h, i))
            by (nonlinear_arith);
    }
    assert(block_output(p, x, h) =~= combine(c, block_output(p1, x1, h), block_output(p2, x2, h)));
    assert forall|j: int| 0 <= j < p.len() implies #[trigger] next_pending(p, x, h)[j] == combine(
        c,
        next_pending(p1, x1, h),
        next_pending(p2, x2, h),
    )[j] by {
        let d1 = if j + n < p.len() {
            p1[j + n]
        } else {
            0
        };
        assert(c * (d1 + conv_at(x1, h, n + j)) == c * d1 + c * conv_at(x1, h, n + j))
            by (nonlinear_arith);
    }
    assert(next_pending(p, x, h) =~= combine(c, next_pending(p1, x1, h), next_pending(p2, x2, h)));
}

/// One block further: pending energy that is the rest of the convolution of
/// `xk0` stays the rest of the convolution of `xk0` followed by `xb`.
proof fn lemma_state_step(h: Seq<int>, b: nat, prev: Seq<int>, xk0: Seq<int>, xb: Seq<int>)
    requires
        xb.len() == b,
        prev.len() >= h.len() + b,
        forall|j: int|
            0 <= j < prev.len() ==> #[trigger] prev[j] == conv_at(xk0, h, xk0.len() + j),
    ensures
        forall|j: int|
            0 <= j < prev.len() ==> #[trigger] next_pending(prev, xb, h)[j] == conv_at(
                xk0 + xb,
                h,
                xk0.len() + b + j,
            ),
{
    assert forall|j: int| 0 <= j < prev.len() implies #[trigger] next_pending(prev, xb, h)[j]
        == conv_at(xk0 + xb, h, xk0.len() + b + j) by {
        lemma_conv_concat(xk0, xb, h, xk0.len() + b + j);
        if j + b >= prev.len() {
            lemma_conv_sum_outside(xk0, h, xk0.len() + b + j, 0, xk0.len());
        } else {
            assert(prev[j + b] == conv_at(xk0, h, xk0.len() + (j + b)));
        }
    }
}

/// One block further: outputs that are the start of the convolution of
/// `xk0` stay the start of the convolution of `xk0` followed by `xb`, and the
/// new block continues it.
proof fn lemma_output_step(
    h: Seq<int>,
    b: nat,
    prev: Seq<int>,
    outs: Seq<int>,
    xk0: Seq<int>,
    xb: Seq<int>,
)
    requires
        xb.len() == b,
        prev.len() >= b,
        outs.len() == xk0.len(),
        forall|j: int|
            0 <= j < prev.len() ==> #[trigger] prev[j] == conv_at(xk0, h, xk0.len() + j),
        forall|t: int| 0 <= t < outs.len() ==> #[trigger] outs[t] == conv_at(xk0, h, t),
    ensures
        (outs + block_output(prev, xb, h)).len() == xk0.len() + b,
        forall|t: int|
            0 <= t < xk0.len() + b ==> #[trigger] (outs + block_output(prev, xb, h))[t] == conv_at(
                xk0 + xb,
                h,
                t,
            ),
{
    let out = outs + block_output(prev, xb, h);
    let n0 = xk0.len() as int;
    assert forall|t: int| 0 <= t < n0 + b implies #[trigger] out[t] == conv_at(xk0 + xb, h, t) by {
        lemma_conv_concat(xk0, xb, h, t);
        if t < n0 {
            lemma_conv_sum_outside(xb, h, t - n0, 0, b);
        } else {
            assert(prev[t - n0] == conv_at(xk0, h, n0 + (t - n0)));
        }
    }
}

/// After `k` blocks from nothing pending, the outputs are the convolution of
/// the first `k * b` input samples up to that point, and the pending energy
/// is the rest of that convolution.
proof fn lemma_stream_prefix(h: Seq<int>, b: nat, cap: nat, x: Seq<int>, k: nat)
    requires
        b >= 1,
        cap >= h.len() + b,
        k * b <= x.len(),
    ensures
        stream_state(zeros(cap), x, h, b, k).len() == cap,
        forall|j: int|
            0 <= j < cap ==> #[trigger] stream_state(zeros(cap), x, h, b, k)[j] == conv_at(
                x.subrange(0, (k * b) as int),
                h,
                k * b + j,
            ),
        stream_outputs(zeros(cap), x, h, b, k).len() == k * b,
        forall|t: int|
            0 <= t < k * b ==> #[trigger] stream_outputs(zeros(cap), x, h, b, k)[t] == conv_at(
                x.subrange(0, (k * b) as int),
                h,
                t,
            ),
    decreases k,
{
    let z = zeros(cap);
    if k == 0 {
        assert(k * b == 0) by (nonlinear_arith)
            requires
                k == 0,
        ;
        let e = x.subrange(0, 0);
        assert forall|j: int| 0 <= j < cap implies #[trigger] stream_state(z, x, h, b, k)[j]
            == conv_at(x.subrange(0, (k * b) as int), h, k * b + j) by {
            assert(conv_at(e, h, j) == conv_sum(e, h, j, 0));
            assert(z[j] == 0);
        }
    } else {
        let k0 = (k - 1) as nat;
        assert(k0 * b + b == k * b) by (nonlinear_arith)
            requires
                k0 == k - 1,
        ;
        lemma_stream_prefix(h, b, cap, x, k0);
        let prev = stream_state(z, x, h, b, k0);
        let outs = stream_outputs(z, x, h, b, k0);
        let xk0 = x.subrange(0, (k0 * b) as int);
        let xb = x.subrange((k0 * b) as int, (k * b) as int);
        assert(x.subrange(0, (k * b) as int) =~= xk0 + xb);
        assert((k - 1) * b == k0 * b);
        assert(stream_outputs(z, x, h, b, k) == outs + block_output(prev, xb, h));
        assert(stream_state(z, x, h, b, k) == next_pending(prev, xb, h));
        lemma_state_step(h, b, prev, xk0, xb);
        lemma_output_step(h, b, prev, outs, xk0, xb);
    }
}

/// A stream whose length is a multiple of `b`, cut into blocks of `b` and
/// fed to a fresh engine, yields exactly the full linear convolution: the
/// output blocks followed by the tail.
pub proof fn lemma_stream_is_convolution(h: Seq<int>, b: nat, cap: nat, x: Seq<int>)
    requires
        h.len() >= 1,
        b >= 1,
        cap >= h.len() + b,
        x.len() as int % (b as int) == 0,
    ensures
        stream_result(h, b, cap, x) == convolution(x, h),
{
    let k = x.len() / b;
    vstd::arithmetic::div_mod::lemma_fundamental_div_mod(x.len() as int, b as int);
    assert(k * b == x.len()) by (nonlinear_arith)
        requires
            x.len() == b * k + 0,
    ;
    lemma_stream_prefix(h, b, cap, x, k as nat);
    assert(x.subrange(0, (k * b) as int) =~= x);
    let r = stream_result(h, b, cap, x);
    assert forall|t: int| 0 <= t < r.len() implies #[trigger] r[t] == convolution(x, h)[t] by {
        if t >= x.len() {
            let j = t - x.len();
            assert(stream_state(zeros(cap), x, h, b, k as nat)[j] == conv_at(x, h, k * b + j));
        }
    }
    assert(r =~= convolution(x, h));
}

/// Block-size invariance: the same stream cut into blocks of `b1` or of `b2`
/// (each dividing its length) yields the same outputs followed by the same
/// tail.
pub proof fn lemma_block_size_invariance(
    h: Seq<int>,
    x: Seq<int>,
    b1: nat,
    cap1: nat,
    b2: nat,
    cap2: nat,
)
    requires
        h.len() >= 1,
        b1 >= 1,
        b2 >= 1,
        cap1 >= h.len() + b1,
        cap2 >= h.len() + b2,
        x.len() as int % (b1 as int) == 0,
        x.len() as int % (b2 as int) == 0,
    ensures
        stream_result(h, b1, cap1, x) == stream_result(h, b2, cap2, x),
{
    lemma_stream_is_convolution(h, b1, cap1, x);
    lemma_stream_is_convolution(h, b2, cap2, x);
}

} // verus!
