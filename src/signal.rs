//! Mathematical model of block convolution over unbounded integers.
use vstd::prelude::*;

verus! {

/// `f(0) + f(1) + ... + f(n - 1)`.
pub open spec fn sum(f: spec_fn(int) -> int, n: nat) -> int
    decreases n,
{
    if n == 0 {
        0
    } else {
        sum(f, (n - 1) as nat) + f(n - 1)
    }
}

/// Coefficient `k` of the response `h`, zero outside it.
pub open spec fn tap(h: Seq<int>, k: int) -> int {
    if 0 <= k < h.len() {
        h[k]
    } else {
        0
    }
}

/// Sample `a` of `x`, zero outside it.
pub open spec fn sample(x: Seq<int>, a: int) -> int {
    if 0 <= a < x.len() {
        x[a]
    } else {
        0
    }
}

/// Contribution of the first `n` samples of `x` to output position `t`:
/// the sum of `x[a] * h[t - a]` over `a < n`.
pub open spec fn conv_sum(x: Seq<int>, h: Seq<int>, t: int, n: nat) -> int {
    sum(|a: int| sample(x, a) * tap(h, t - a), n)
}

/// Position `t` of the full linear convolution of `x` with `h`.
pub open spec fn conv_at(x: Seq<int>, h: Seq<int>, t: int) -> int {
    conv_sum(x, h, t, x.len())
}

/// The full linear convolution of `x` with `h`: `|x| + |h| - 1` samples.
pub open spec fn convolution(x: Seq<int>, h: Seq<int>) -> Seq<int> {
    Seq::new((x.len() + h.len() - 1) as nat, |t: int| conv_at(x, h, t))
}

pub open spec fn widen16(s: Seq<i16>) -> Seq<int> {
    Seq::new(s.len(), |i: int| s[i] as int)
}

pub open spec fn widen64(s: Seq<i64>) -> Seq<int> {
    Seq::new(s.len(), |i: int| s[i] as int)
}

/// `p` moved `n` places towards its front, with zeros filling the back.
pub open spec fn drained(p: Seq<int>, n: int) -> Seq<int> {
    Seq::new(p.len(), |j: int| if j + n < p.len() { p[j + n] } else { 0 })
}

/// Output block for input block `x` when `p` holds the energy already due.
pub open spec fn block_output(p: Seq<int>, x: Seq<int>, h: Seq<int>) -> Seq<int> {
    Seq::new(x.len(), |i: int| p[i] + conv_at(x, h, i))
}

/// Energy due after input block `x`, position 0 being the sample that
/// follows the block.
pub open spec fn next_pending(p: Seq<int>, x: Seq<int>, h: Seq<int>) -> Seq<int> {
    Seq::new(p.len(), |j: int| drained(p, x.len() as int)[j] + conv_at(x, h, x.len() + j))
}

pub open spec fn zeros(n: nat) -> Seq<int> {
    Seq::new(n, |i: int| 0int)
}

/// Largest magnitude of the product of two 16-bit samples.
pub open spec fn product_bound() -> int {
    0x4000_0000
}

/// Largest magnitude that position `j` of the pending energy can reach for
/// a response of `m` coefficients: one full product per later coefficient.
pub open spec fn tail_bound(m: int, j: int) -> int {
    if j < m - 1 {
        (m - 1 - j) * product_bound()
    } else {
        0
    }
}

pub open spec fn pending_bounded(p: Seq<int>, m: int) -> bool {
    forall|j: int| 0 <= j < p.len() ==> -tail_bound(m, j) <= #[trigger] p[j] <= tail_bound(m, j)
}

pub open spec fn is_sample16(s: Seq<int>) -> bool {
    forall|i: int| 0 <= i < s.len() ==> -0x8000 <= #[trigger] s[i] <= 0x7fff
}

pub proof fn lemma_widen16_range(s: Seq<i16>)
    ensures
        is_sample16(widen16(s)),
        widen16(s).len() == s.len(),
{
}

pub proof fn lemma_product_bound(a: int, b: int)
    requires
        -0x8000 <= a <= 0x7fff,
        -0x8000 <= b <= 0x7fff,
    ensures
        -product_bound() <= a * b <= product_bound(),
{
    assert(-0x4000_0000 <= a * b <= 0x4000_0000) by (nonlinear_arith)
        requires
            -0x8000 <= a <= 0x7fff,
            -0x8000 <= b <= 0x7fff,
    ;
}

pub proof fn lemma_sum_ext(f: spec_fn(int) -> int, g: spec_fn(int) -> int, n: nat)
    requires
        forall|a: int| 0 <= a < n ==> #[trigger] f(a) == g(a),
    ensures
        sum(f, n) == sum(g, n),
    decreases n,
{
    if n > 0 {
        lemma_sum_ext(f, g, (n - 1) as nat);
    }
}

/// Terms that vanish on `[n1, n2)` leave the sum unchanged.
pub proof fn lemma_sum_zero_range(f: spec_fn(int) -> int, n1: nat, n2: nat)
    requires
        n1 <= n2,
        forall|a: int| n1 <= a < n2 ==> #[trigger] f(a) == 0,
    ensures
        sum(f, n2) == sum(f, n1),
    decreases n2,
{
    if n2 > n1 {
        lemma_sum_zero_range(f, n1, (n2 - 1) as nat);
    }
}

pub proof fn lemma_sum_add(
    f: spec_fn(int) -> int,
    g: spec_fn(int) -> int,
    fg: spec_fn(int) -> int,
    n: nat,
)
    requires
        forall|a: int| 0 <= a < n ==> #[trigger] fg(a) == f(a) + g(a),
    ensures
        sum(fg, n) == sum(f, n) + sum(g, n),
    decreases n,
{
    if n > 0 {
        lemma_sum_add(f, g, fg, (n - 1) as nat);
    }
}

pub proof fn lemma_sum_scale(f: spec_fn(int) -> int, g: spec_fn(int) -> int, c: int, n: nat)
    requires
        forall|a: int| 0 <= a < n ==> #[trigger] g(a) == c * f(a),
    ensures
        sum(g, n) == c * sum(f, n),
    decreases n,
{
    if n > 0 {
        lemma_sum_scale(f, g, c, (n - 1) as nat);
        assert(c * sum(f, (n - 1) as nat) + c * f(n - 1) == c * (sum(f, (n - 1) as nat) + f(
            n - 1,
        ))) by (nonlinear_arith);
    }
}

/// Splitting the range at `n1`: the later terms, renumbered from 0, form `g`.
pub proof fn lemma_sum_split(f: spec_fn(int) -> int, g: spec_fn(int) -> int, n1: nat, n2: nat)
    requires
        forall|a: int| 0 <= a < n2 ==> #[trigger] g(a) == f(n1 + a),
    ensures
        sum(f, n1 + n2) == sum(f, n1) + sum(g, n2),
    decreases n2,
{
    if n2 > 0 {
        lemma_sum_split(f, g, n1, (n2 - 1) as nat);
    }
}

/// Only coefficients `t - a` with `a < n` that lie in the response count:
/// the contribution to position `t` of the first `n` input samples is
/// bounded by one full product per such coefficient.
pub proof fn lemma_conv_sum_tail_bound(x: Seq<int>, h: Seq<int>, t: int, n: nat)
    requires
        is_sample16(x),
        is_sample16(h),
    ensures
        -(n * product_bound()) <= conv_sum(x, h, t, n) <= n * product_bound(),
        -tail_bound((h.len() + n) as int, t) <= conv_sum(x, h, t, n) <= tail_bound((h.len() + n) as int, t),
    decreases n,
{
    let f = |a: int| sample(x, a) * tap(h, t - a);
    if n > 0 {
        lemma_conv_sum_tail_bound(x, h, t, (n - 1) as nat);
        let a = n - 1;
        let m = h.len() as int;
        lemma_product_bound(sample(x, a), tap(h, t - a));
        assert(f(a) == sample(x, a) * tap(h, t - a));
        assert(conv_sum(x, h, t, n) == conv_sum(x, h, t, (n - 1) as nat) + f(a));
        assert((n - 1) * product_bound() + product_bound() == n * product_bound())
            by (nonlinear_arith);
        if t - a >= m {
            assert(tap(h, t - a) == 0);
            assert(f(a) == 0);
        }
        if t < m + n - 1 {
            assert(tail_bound(m + n, t) == (m + n - 1 - t) * product_bound());
            if t < m + n - 2 {
                assert(tail_bound(m + n - 1, t) == (m + n - 2 - t) * product_bound());
            } else {
                assert(tail_bound(m + n - 1, t) == 0);
            }
            assert((m + n - 2 - t) * product_bound() + product_bound() == (m + n - 1 - t)
                * product_bound()) by (nonlinear_arith);
            assert(0 <= (m + n - 1 - t) * product_bound()) by (nonlinear_arith)
                requires
                    t < m + n - 1,
            ;
        } else {
            assert(tail_bound(m + n, t) == 0);
            assert(tail_bound(m + n - 1, t) == 0);
        }
    }
}

/// Input samples past `t`, past the end of `x`, or too early to reach `t`
/// through the response add nothing.
pub proof fn lemma_conv_sum_outside(x: Seq<int>, h: Seq<int>, t: int, n1: nat, n2: nat)
    requires
        n1 <= n2,
        n1 > t || n1 >= x.len() || n2 + h.len() <= t + 1,
    ensures
        conv_sum(x, h, t, n2) == conv_sum(x, h, t, n1),
{
    let f = |a: int| sample(x, a) * tap(h, t - a);
    assert forall|a: int| n1 <= a < n2 implies #[trigger] f(a) == 0 by {
        if n1 > t || n2 + h.len() <= t + 1 {
            assert(tap(h, t - a) == 0);
        } else {
            assert(sample(x, a) == 0);
        }
    }
    lemma_sum_zero_range(f, n1, n2);
}

} // verus!
