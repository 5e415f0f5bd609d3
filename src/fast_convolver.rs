use crate::accumulation::AccumulationBuffer;
use crate::partition::{
    config_ok, extended_partition_of, partition_count, partition_of, PartitionSet, MAX_BLOCK_SIZE,
    MAX_RESPONSE_LEN,
};
use crate::signal::{
    block_output, conv_at, conv_sum, convolution, drained, is_sample16, lemma_conv_sum_outside,
    lemma_conv_sum_tail_bound, lemma_product_bound, lemma_sum_add, lemma_sum_ext,
    lemma_sum_zero_range, next_pending, pending_bounded, product_bound, sample, sum, tail_bound,
    tap, widen16, widen64, zeros,
};
use crate::laws::{lemma_stream_is_convolution, stream_outputs, stream_result, stream_state};
use vstd::prelude::*;

verus! {

/// Which per-block algorithm an engine uses.
#[derive(Clone, Copy, Debug, PartialEq, Eq, Structural)]
pub enum ConvolutionMode {
    /// Direct multiply-accumulate over every input sample and coefficient.
    TimeDomain,
    /// For every partition, the cyclic product of period two blocks of the
    /// zero-extended input block with the zero-extended partition (the
    /// product a spectral transform turns into bin-wise multiplication),
    /// overlap-added into place.
    FrequencyDomain,
}

#[derive(Clone, Copy, Debug, PartialEq, Eq, Structural)]
pub enum ConvolutionError {
    /// The block size does not suit the chosen mode.
    ConfigError,
    /// A block's length differs from the configured block size.
    LengthMismatch,
}

/// Largest magnitude of any partial sum the strategies form.
pub open spec fn partial_bound() -> int {
    0x1000_0000_0000_0000
}

/// Input block `x` extended with `b` zeros.
pub open spec fn extended_block(x: Seq<int>, b: nat) -> Seq<int> {
    Seq::new(2 * b, |a: int| if a < b { x[a] } else { 0 })
}

/// First `n` terms of the cyclic convolution of period `l` of `xp` with `pp`
/// at position `s`.
pub open spec fn cyclic_sum(xp: Seq<int>, pp: Seq<int>, s: int, l: nat, n: nat) -> int {
    sum(|a: int| sample(xp, a) * sample(pp, (s - a) % (l as int)), n)
}

/// Slot of partition `i`, position `s`, in the products of one block.
pub open spec fn product_at(products: Seq<i64>, b: nat, i: int, s: int) -> int {
    products[i * 2 * b + s] as int
}

/// `products` holds, for each partition `i` and position `s < 2b`, the
/// contribution of block `x` through partition `i` at offset `s`.
pub open spec fn products_hold(products: Seq<i64>, x: Seq<int>, ir: Seq<int>, b: nat, count: nat) -> bool {
    &&& products.len() == count * 2 * b
    &&& forall|i: int, s: int|
        0 <= i < count && 0 <= s < 2 * b ==> #[trigger] product_at(products, b, i, s) == conv_sum(
            x,
            partition_of(ir, b, i),
            s,
            b,
        )
}

proof fn lemma_mod_negative(v: int, l: int)
    requires
        l > 0,
        -l <= v < 0,
    ensures
        v % l == v + l,
{
    vstd::arithmetic::div_mod::lemma_mod_multiples_vanish(1, v, l);
    vstd::arithmetic::div_mod::lemma_small_mod((v + l) as nat, l as nat);
}

/// With both operands extended by a block of zeros, the cyclic product of
/// period `2b` holds the linear one: no term wraps around.
pub proof fn lemma_cyclic_is_linear(x: Seq<int>, ir: Seq<int>, b: nat, i: int, s: int)
    requires
        x.len() == b,
        b >= 1,
        0 <= s < 2 * b,
    ensures
        cyclic_sum(extended_block(x, b), extended_partition_of(ir, b, i), s, 2 * b, 2 * b)
            == conv_sum(x, partition_of(ir, b, i), s, b),
{
    let xp = extended_block(x, b);
    let pp = extended_partition_of(ir, b, i);
    let part = partition_of(ir, b, i);
    let l = 2 * b;
    let f = |a: int| sample(xp, a) * sample(pp, (s - a) % (l as int));
    let g = |a: int| sample(x, a) * tap(part, s - a);
    assert forall|a: int| b <= a < 2 * b implies #[trigger] f(a) == 0 by {
        assert(sample(xp, a) == 0);
    }
    lemma_sum_zero_range(f, b, 2 * b);
    assert forall|a: int| 0 <= a < b implies #[trigger] f(a) == g(a) by {
        assert(sample(xp, a) == sample(x, a));
        if s >= a {
            vstd::arithmetic::div_mod::lemma_small_mod((s - a) as nat, l);
            assert(sample(pp, (s - a) % (l as int)) == tap(part, s - a));
        } else {
            lemma_mod_negative(s - a, l as int);
            assert(sample(pp, (s - a) % (l as int)) == 0);
            assert(tap(part, s - a) == 0);
        }
    }
    lemma_sum_ext(f, g, b);
}

/// Every output position draws on at most two partitions: the one it falls
/// in, and the one before it through the second half of that partition's
/// extended product.
pub proof fn lemma_partition_pair(x: Seq<int>, ir: Seq<int>, b: nat, t: int, i1: int, s1: int)
    requires
        x.len() == b,
        b >= 1,
        i1 >= 0,
        0 <= s1 < b,
        t == i1 * b + s1,
    ensures
        conv_sum(x, ir, t, b) == conv_sum(x, partition_of(ir, b, i1), s1, b) + if i1 >= 1 {
            conv_sum(x, partition_of(ir, b, i1 - 1), s1 + b, b)
        } else {
            0
        },
{
    let f = |a: int| sample(x, a) * tap(ir, t - a);
    let f1 = |a: int| sample(x, a) * tap(partition_of(ir, b, i1), s1 - a);
    let f2 = |a: int| sample(x, a) * tap(partition_of(ir, b, i1 - 1), s1 + b - a);
    if i1 >= 1 {
        assert forall|a: int| 0 <= a < b implies #[trigger] f(a) == f1(a) + f2(a) by {
            assert((i1 - 1) * b + (s1 + b - a) == t - a) by (nonlinear_arith)
                requires
                    t == i1 * b + s1,
            ;
            if s1 >= a {
                assert(tap(partition_of(ir, b, i1), s1 - a) == tap(ir, t - a));
                assert(tap(partition_of(ir, b, i1 - 1), s1 + b - a) == 0);
            } else {
                assert(tap(partition_of(ir, b, i1), s1 - a) == 0);
                assert(tap(partition_of(ir, b, i1 - 1), s1 + b - a) == tap(ir, t - a));
            }
        }
        lemma_sum_add(f1, f2, f, b);
    } else {
        assert forall|a: int| 0 <= a < b implies #[trigger] f(a) == f1(a) by {
            if s1 >= a {
                assert(tap(partition_of(ir, b, i1), s1 - a) == tap(ir, t - a));
            } else {
                assert(tap(ir, t - a) == 0);
            }
        }
        lemma_sum_ext(f, f1, b);
    }
}

proof fn lemma_partition_sample16(ir: Seq<int>, b: nat, i: int)
    requires
        is_sample16(ir),
    ensures
        is_sample16(partition_of(ir, b, i)),
{
    assert forall|r: int| 0 <= r < b implies -0x8000 <= #[trigger] partition_of(ir, b, i)[r]
        <= 0x7fff by {
        if 0 <= i * b + r < ir.len() {
            assert(ir[i * b + r] == partition_of(ir, b, i)[r]);
        }
    }
}

/// Partitions at or past `count` lie beyond the response and contribute
/// nothing.
proof fn lemma_partition_beyond(x: Seq<int>, ir: Seq<int>, b: nat, count: nat, i: int, s: int)
    requires
        count * b >= ir.len(),
        i >= count,
    ensures
        conv_sum(x, partition_of(ir, b, i), s, b) == 0,
{
    let f = |a: int| sample(x, a) * tap(partition_of(ir, b, i), s - a);
    assert forall|a: int| 0 <= a < b implies #[trigger] f(a) == 0 by {
        if 0 <= s - a < b {
            assert(i * b + (s - a) >= ir.len()) by (nonlinear_arith)
                requires
                    count * b >= ir.len(),
                    i >= count,
                    s - a >= 0,
            ;
        }
    }
    lemma_sum_zero_range(f, 0, b);
}

/// Time-domain strategy at output position `t`: the sum of
/// `input[a] * ir[t - a]` over the input samples whose coefficient exists.
fn time_domain_sum(parts: &PartitionSet, input: &[i16], t: usize) -> (r: i64)
    requires
        parts.wf(),
        input@.len() == parts@.block_size,
        t < (parts@.count + 2) * parts@.block_size,
    ensures
        r == conv_at(widen16(input@), parts@.ir, t as int),
        -partial_bound() <= r <= partial_bound(),
{
    let ghost x = widen16(input@);
    let ghost ir = parts@.ir;
    proof {
        parts.lemma_valid();
    }
    let m = parts.response_len();
    let b = parts.block_size();
    let lo: usize = if t >= m {
        t - m + 1
    } else {
        0
    };
    let hi: usize = if t < b {
        t + 1
    } else {
        b
    };
    if lo >= hi {
        proof {
            lemma_conv_sum_outside(x, ir, t as int, 0, b as nat);
        }
        return 0;
    }
    if lo > 0 {
        proof {
            lemma_conv_sum_outside(x, ir, t as int, 0, lo as nat);
        }
    }
    let mut total: i64 = 0;
    let mut a: usize = lo;
    while a < hi
        invariant
            parts.wf(),
            ir == parts@.ir,
            x == widen16(input@),
            m == ir.len(),
            b == parts@.block_size,
            input@.len() == b,
            lo <= a <= hi <= b,
            hi <= t + 1,
            lo + m >= t + 1,
            m <= MAX_RESPONSE_LEN,
            total == conv_sum(x, ir, t as int, a as nat),
            -((a - lo) * product_bound()) <= total <= (a - lo) * product_bound(),
            parts@.count * b >= m,
        decreases hi - a,
    {
        let k = t - a;
        let c = parts.tap(k);
        proof {
            lemma_product_bound(x[a as int], c as int);
            assert((a - lo) * product_bound() + product_bound() == (a + 1 - lo) * product_bound())
                by (nonlinear_arith);
            assert((a + 1 - lo) * product_bound() <= MAX_RESPONSE_LEN * product_bound())
                by (nonlinear_arith)
                requires
                    a + 1 - lo <= MAX_RESPONSE_LEN,
            ;
        }
        total = total + input[a] as i64 * c as i64;
        a = a + 1;
    }
    proof {
        lemma_conv_sum_outside(x, ir, t as int, hi as nat, b as nat);
        assert((hi - lo) * product_bound() <= MAX_RESPONSE_LEN * product_bound())
            by (nonlinear_arith)
            requires
                hi - lo <= MAX_RESPONSE_LEN,
        ;
    }
    total
}

/// Frequency-domain strategy, first half: extends the input block to two
/// blocks and forms its product with every extended partition, each as the
/// cyclic convolution of period two blocks.
fn spectral_products(
    parts: &PartitionSet,
    input: &[i16],
    padded: &mut Vec<i16>,
    products: &mut Vec<i64>,
)
    requires
        parts.wf(),
        parts@.mode == ConvolutionMode::FrequencyDomain,
        input@.len() == parts@.block_size,
        old(padded)@.len() == 2 * parts@.block_size,
        old(products)@.len() == parts@.count * 2 * parts@.block_size,
    ensures
        final(padded)@.len() == 2 * parts@.block_size,
        products_hold(final(products)@, widen16(input@), parts@.ir, parts@.block_size, parts@.count),
{
    proof {
        parts.lemma_valid();
    }
    let ghost x = widen16(input@);
    let ghost ir = parts@.ir;
    let b = parts.block_size();
    let count = parts.partition_count();
    let l = 2 * b;
    let mut a: usize = 0;
    while a < l
        invariant
            a <= l == 2 * b,
            input@.len() == b,
            padded@.len() == l,
            forall|k: int| 0 <= k < a ==> #[trigger] padded@[k] as int == extended_block(x, b as nat)[k],
            x == widen16(input@),
        decreases l - a,
    {
        if a < b {
            padded.set(a, input[a]);
        } else {
            padded.set(a, 0);
        }
        a = a + 1;
    }
    let ghost xp = widen16(padded@);
    assert(xp =~= extended_block(x, b as nat));
    let plen = products.len();
    assert(count * 2 * b == count * l) by (nonlinear_arith)
        requires
            l == 2 * b,
    ;
    let mut i: usize = 0;
    while i < count
        invariant
            parts.wf(),
            parts@.valid(),
            parts@.mode == ConvolutionMode::FrequencyDomain,
            i <= count == parts@.count,
            b == parts@.block_size,
            l == 2 * b,
            ir == parts@.ir,
            x == widen16(input@),
            x.len() == b,
            xp == widen16(padded@),
            xp == extended_block(x, b as nat),
            padded@.len() == l,
            products@.len() == count * l,
            forall|i2: int, s2: int|
                0 <= i2 < i && 0 <= s2 < l ==> #[trigger] product_at(products@, b as nat, i2, s2)
                    == conv_sum(x, partition_of(ir, b as nat, i2), s2, b as nat),
            plen == products@.len(),
        decreases count - i,
    {
        let ghost pp = extended_partition_of(ir, b as nat, i as int);
        let mut s: usize = 0;
        while s < l
            invariant
                parts.wf(),
                parts@.valid(),
                parts@.mode == ConvolutionMode::FrequencyDomain,
                i < count == parts@.count,
                b == parts@.block_size,
                l == 2 * b,
                ir == parts@.ir,
                x.len() == b,
                xp == widen16(padded@),
                xp == extended_block(x, b as nat),
                pp == extended_partition_of(ir, b as nat, i as int),
                padded@.len() == l,
                s <= l,
                products@.len() == count * l,
                forall|i2: int, s2: int|
                    (0 <= i2 < i && 0 <= s2 < l) || (i2 == i && 0 <= s2 < s)
                        ==> #[trigger] product_at(products@, b as nat, i2, s2) == conv_sum(
                        x,
                        partition_of(ir, b as nat, i2),
                        s2,
                        b as nat,
                    ),
                plen == products@.len(),
            decreases l - s,
        {
            let mut total: i64 = 0;
            let mut a: usize = 0;
            while a < l
                invariant
                    parts.wf(),
                    parts@.valid(),
                    parts@.mode == ConvolutionMode::FrequencyDomain,
                    i < count == parts@.count,
                    b == parts@.block_size,
                    l == 2 * b,
                    ir == parts@.ir,
                    xp == widen16(padded@),
                    pp == extended_partition_of(ir, b as nat, i as int),
                    padded@.len() == l,
                    s < l,
                    a <= l,
                    total == cyclic_sum(xp, pp, s as int, l as nat, a as nat),
                    -(a * product_bound()) <= total <= a * product_bound(),
                decreases l - a,
            {
                let idx = if a <= s {
                    s - a
                } else {
                    s + l - a
                };
                let c = parts.extended_tap(i, idx);
                proof {
                    if a <= s {
                        vstd::arithmetic::div_mod::lemma_small_mod((s - a) as nat, l as nat);
                    } else {
                        lemma_mod_negative(s - a, l as int);
                    }
                    assert(sample(pp, (s - a) % (l as int)) == c);
                    lemma_product_bound(xp[a as int], c as int);
                    assert(a * product_bound() + product_bound() == (a + 1) * product_bound())
                        by (nonlinear_arith);
                    assert((a + 1) * product_bound() <= 2 * MAX_BLOCK_SIZE * product_bound())
                        by (nonlinear_arith)
                        requires
                            a + 1 <= 2 * MAX_BLOCK_SIZE,
                    ;
                }
                total = total + padded[a] as i64 * c as i64;
                a = a + 1;
            }
            proof {
                lemma_cyclic_is_linear(x, ir, b as nat, i as int, s as int);
                assert(l * product_bound() <= 2 * MAX_BLOCK_SIZE * product_bound())
                    by (nonlinear_arith)
                    requires
                        l <= 2 * MAX_BLOCK_SIZE,
                ;
                assert(i * l + s < count * l) by (nonlinear_arith)
                    requires
                        i < count,
                        s < l,
                ;
                assert(i * l + s < plen);
                assert(i * 2 * b == i * l) by (nonlinear_arith)
                    requires
                        l == 2 * b,
                ;
            }
            let ghost before = products@;
            products.set(i * l + s, total);
            proof {
                assert forall|i2: int, s2: int|
                    (0 <= i2 < i && 0 <= s2 < l) || (i2 == i && 0 <= s2 < s + 1)
                        implies #[trigger] product_at(products@, b as nat, i2, s2) == conv_sum(
                        x,
                        partition_of(ir, b as nat, i2),
                        s2,
                        b as nat,
                    ) by {
                    assert(i2 * 2 * b == i2 * l) by (nonlinear_arith)
                        requires
                            l == 2 * b,
                    ;
                    if i2 == i && s2 == s {
                    } else {
                        assert(i2 * l + s2 != i * l + s) by (nonlinear_arith)
                            requires
                                (0 <= i2 < i && 0 <= s2 < l) || (i2 == i && 0 <= s2 < s),
                                s < l,
                        ;
                        assert(0 <= i2 * l + s2 < count * l) by (nonlinear_arith)
                            requires
                                0 <= i2 <= i < count,
                                0 <= s2 < l,
                        ;
                        assert(product_at(before, b as nat, i2, s2) == product_at(
                            products@,
                            b as nat,
                            i2,
                            s2,
                        ));
                    }
                }
            }
            s = s + 1;
        }
        i = i + 1;
    }
}

/// Frequency-domain strategy, second half: the value at output position `t`
/// gathered from the (at most two) partition products that reach it.
fn frequency_domain_sum(parts: &PartitionSet, products: &Vec<i64>, t: usize, Ghost(x): Ghost<Seq<int>>) -> (r: i64)
    requires
        parts.wf(),
        x.len() == parts@.block_size,
        is_sample16(x),
        products_hold(products@, x, parts@.ir, parts@.block_size, parts@.count),
        t < (parts@.count + 2) * parts@.block_size,
    ensures
        r == conv_at(x, parts@.ir, t as int),
        -partial_bound() <= r <= partial_bound(),
{
    proof {
        parts.lemma_valid();
    }
    let ghost ir = parts@.ir;
    let b = parts.block_size();
    let count = parts.partition_count();
    let plen = products.len();
    let i1 = t / b;
    let s1 = t % b;
    proof {
        vstd::arithmetic::div_mod::lemma_fundamental_div_mod(t as int, b as int);
        assert(t == i1 * b + s1) by (nonlinear_arith)
            requires
                t == b * i1 + s1,
        ;
        assert(i1 <= count + 1) by (nonlinear_arith)
            requires
                t == i1 * b + s1,
                t < (count + 2) * b,
                s1 >= 0,
                b >= 1,
        ;
        lemma_partition_pair(x, ir, b as nat, t as int, i1 as int, s1 as int);
        lemma_partition_sample16(ir, b as nat, i1 as int);
        lemma_partition_sample16(ir, b as nat, i1 - 1);
        lemma_conv_sum_tail_bound(x, partition_of(ir, b as nat, i1 as int), s1 as int, b as nat);
        lemma_conv_sum_tail_bound(x, partition_of(ir, b as nat, i1 - 1), s1 + b, b as nat);
        assert(b * product_bound() <= MAX_BLOCK_SIZE * product_bound()) by (nonlinear_arith)
            requires
                b <= MAX_BLOCK_SIZE,
        ;
        lemma_conv_sum_tail_bound(x, ir, t as int, b as nat);
    }
    let first: i64 = if i1 < count {
        proof {
            assert(i1 * 2 * b + s1 < count * 2 * b) by (nonlinear_arith)
                requires
                    i1 < count,
                    s1 < b,
            ;
            assert(product_at(products@, b as nat, i1 as int, s1 as int) == products@[i1 * 2 * b
                + s1]);
            assert(i1 * 2 * b + s1 < plen);
            assert(i1 * 2 <= i1 * 2 * b) by (nonlinear_arith)
                requires
                    b >= 1,
                    i1 >= 0,
            ;
        }
        products[i1 * 2 * b + s1]
    } else {
        proof {
            lemma_partition_beyond(x, ir, b as nat, count as nat, i1 as int, s1 as int);
        }
        0
    };
    let second: i64 = if i1 >= 1 && i1 - 1 < count {
        proof {
            assert((i1 - 1) * 2 * b + s1 + b < count * 2 * b) by (nonlinear_arith)
                requires
                    i1 - 1 < count,
                    s1 < b,
            ;
            assert(product_at(products@, b as nat, i1 - 1, s1 + b) == products@[(i1 - 1) * 2 * b
                + s1 + b]);
            assert((i1 - 1) * 2 * b + s1 + b < plen);
            assert((i1 - 1) * 2 <= (i1 - 1) * 2 * b) by (nonlinear_arith)
                requires
                    b >= 1,
                    i1 >= 1,
            ;
        }
        products[(i1 - 1) * 2 * b + s1 + b]
    } else {
        proof {
            if i1 >= 1 {
                lemma_partition_beyond(x, ir, b as nat, count as nat, i1 - 1, s1 + b);
            }
        }
        0
    };
    first + second
}

proof fn lemma_drained_bounded(p: Seq<int>, m: int, n: int)
    requires
        pending_bounded(p, m),
        n >= 0,
    ensures
        pending_bounded(drained(p, n), m),
{
    assert forall|j: int| 0 <= j < p.len() implies -tail_bound(m, j) <= #[trigger] drained(
        p,
        n,
    )[j] <= tail_bound(m, j) by {
        if j + n < p.len() {
            assert(-tail_bound(m, j + n) <= p[j + n] <= tail_bound(m, j + n));
        }
    }
}

/// Processing a block keeps every pending position within its bound.
proof fn lemma_next_pending_bounded(p: Seq<int>, x: Seq<int>, h: Seq<int>)
    requires
        pending_bounded(p, h.len() as int),
        is_sample16(x),
        is_sample16(h),
    ensures
        pending_bounded(next_pending(p, x, h), h.len() as int),
{
    let m = h.len() as int;
    let n = x.len() as int;
    assert forall|j: int| 0 <= j < p.len() implies -tail_bound(m, j) <= #[trigger] next_pending(
        p,
        x,
        h,
    )[j] <= tail_bound(m, j) by {
        lemma_conv_sum_tail_bound(x, h, n + j, n as nat);
        if j + n < p.len() {
            assert(-tail_bound(m, j + n) <= p[j + n] <= tail_bound(m, j + n));
        }
    }
}

/// Overlap-add of one input block: adds position `t` of its convolution to
/// `output[t]` for `t` inside the block and to the buffer at `t - block_size`
/// past it.
fn overlap_add(
    parts: &PartitionSet,
    products: &Vec<i64>,
    buffer: &mut AccumulationBuffer,
    input: &[i16],
    output: &mut [i64],
)
    requires
        parts.wf(),
        input@.len() == parts@.block_size,
        old(output)@.len() == parts@.block_size,
        old(buffer)@.len() == (parts@.count + 1) * parts@.block_size,
        parts@.mode == ConvolutionMode::FrequencyDomain ==> products_hold(
            products@,
            widen16(input@),
            parts@.ir,
            parts@.block_size,
            parts@.count,
        ),
        forall|i: int|
            0 <= i < old(output)@.len() ==> -partial_bound() <= #[trigger] old(output)@[i]
                <= partial_bound(),
        forall|j: int|
            0 <= j < old(buffer)@.len() ==> -partial_bound() <= #[trigger] old(buffer)@[j]
                <= partial_bound(),
    ensures
        final(output)@.len() == old(output)@.len(),
        forall|i: int|
            0 <= i < old(output)@.len() ==> #[trigger] final(output)@[i] == old(output)@[i]
                + conv_at(widen16(input@), parts@.ir, i),
        final(buffer)@.len() == old(buffer)@.len(),
        forall|j: int|
            0 <= j < old(buffer)@.len() ==> #[trigger] final(buffer)@[j] == old(buffer)@[j]
                + conv_at(widen16(input@), parts@.ir, parts@.block_size + j),
{
    proof {
        parts.lemma_valid();
    }
    let ghost x = widen16(input@);
    let ghost ir = parts@.ir;
    let b = parts.block_size();
    let mode = parts.mode();
    proof {
        let count = parts@.count;
        assert((count - 1) * b + b == count * b) by (nonlinear_arith);
        assert(count * b + b == (count + 1) * b) by (nonlinear_arith);
        assert((count + 1) * b + b == (count + 2) * b) by (nonlinear_arith);
    }
    let total = b + buffer.len();
    let mut t: usize = 0;
    while t < total
        invariant
            parts.wf(),
            parts@.valid(),
            x == widen16(input@),
            ir == parts@.ir,
            b == parts@.block_size,
            mode == parts@.mode,
            input@.len() == b,
            output@.len() == b,
            old(output)@.len() == b,
            buffer@.len() == old(buffer)@.len(),
            total == b + buffer@.len(),
            total == (parts@.count + 2) * b,
            t <= total,
            mode == ConvolutionMode::FrequencyDomain ==> products_hold(
                products@,
                x,
                ir,
                b as nat,
                parts@.count,
            ),
            forall|i: int|
                0 <= i < b ==> #[trigger] output@[i] == old(output)@[i] + if i < t {
                    conv_at(x, ir, i)
                } else {
                    0
                },
            forall|j: int|
                0 <= j < buffer@.len() ==> #[trigger] buffer@[j] == old(buffer)@[j] + if b + j < t {
                    conv_at(x, ir, b + j)
                } else {
                    0
                },
            forall|i: int|
                0 <= i < old(output)@.len() ==> -partial_bound() <= #[trigger] old(output)@[i]
                    <= partial_bound(),
            forall|j: int|
                0 <= j < old(buffer)@.len() ==> -partial_bound() <= #[trigger] old(buffer)@[j]
                    <= partial_bound(),
        decreases total - t,
    {
        let v = match mode {
            ConvolutionMode::TimeDomain => time_domain_sum(parts, input, t),
            ConvolutionMode::FrequencyDomain => {
                proof {
                    crate::signal::lemma_widen16_range(input@);
                }
                frequency_domain_sum(parts, products, t, Ghost(x))
            },
        };
        if t < b {
            let ghost before = output@;
            output[t] = output[t] + v;
            assert forall|i: int| 0 <= i < b implies #[trigger] output@[i] == old(output)@[i] + if i
                < t + 1 {
                conv_at(x, ir, i)
            } else {
                0
            } by {
                if i != t {
                    assert(output@[i] == before[i]);
                }
            }
        } else {
            let ghost before = buffer@;
            buffer.accumulate(t - b, v);
            assert forall|j: int| 0 <= j < buffer@.len() implies #[trigger] buffer@[j] == old(
                buffer,
            )@[j] + if b + j < t + 1 {
                conv_at(x, ir, b + j)
            } else {
                0
            } by {
                if j != t - b {
                    assert(buffer@[j] == before[j]);
                }
            }
        }
        t = t + 1;
    }
}

/// Abstract state of a [`FastConvolver`]: the response, the configuration,
/// the energy already due at each position after the last emitted sample,
/// and how many samples of tail `flush` still hands out.
pub ghost struct ConvolverModel {
    pub ir: Seq<int>,
    pub block_size: nat,
    pub mode: ConvolutionMode,
    pub pending: Seq<int>,
    pub remaining: nat,
}

impl ConvolverModel {
    pub open spec fn valid(self) -> bool {
        &&& 1 <= self.ir.len() <= MAX_RESPONSE_LEN
        &&& is_sample16(self.ir)
        &&& config_ok(self.mode, self.block_size)
        &&& self.block_size <= MAX_BLOCK_SIZE
        &&& self.pending.len() >= self.ir.len() + self.block_size
        &&& pending_bounded(self.pending, self.ir.len() as int)
        &&& self.remaining <= self.tail_size()
    }

    /// Length of the tail that follows the last input sample.
    pub open spec fn tail_size(self) -> nat {
        (self.ir.len() - 1) as nat
    }

    /// State after input block `x`.
    pub open spec fn processed(self, x: Seq<int>) -> ConvolverModel {
        ConvolverModel {
            pending: next_pending(self.pending, x, self.ir),
            remaining: self.tail_size(),
            ..self
        }
    }

    /// State after a reset: nothing pending, the whole tail still to come.
    pub open spec fn cleared(self) -> ConvolverModel {
        ConvolverModel { pending: zeros(self.pending.len()), remaining: self.tail_size(), ..self }
    }

    /// State after `n` samples of pending energy were handed out.
    pub open spec fn advanced(self, n: nat) -> ConvolverModel {
        ConvolverModel { pending: drained(self.pending, n as int), ..self }
    }
}

/// Streaming convolution of fixed-size blocks of 16-bit samples with a fixed
/// impulse response, exact in 64-bit arithmetic.
pub struct FastConvolver {
    partitions: PartitionSet,
    buffer: AccumulationBuffer,
    remaining: usize,
    padded: Vec<i16>,
    products: Vec<i64>,
}

impl View for FastConvolver {
    type V = ConvolverModel;

    closed spec fn view(&self) -> ConvolverModel {
        ConvolverModel {
            ir: self.partitions@.ir,
            block_size: self.partitions@.block_size,
            mode: self.partitions@.mode,
            pending: self.buffer@,
            remaining: self.remaining as nat,
        }
    }
}

impl FastConvolver {
    pub closed spec fn wf(&self) -> bool {
        &&& self.partitions.wf()
        &&& self.buffer@.len() == (self.partitions@.count + 1) * self.partitions@.block_size
        &&& self@.valid()
        &&& self.partitions@.mode == ConvolutionMode::FrequencyDomain ==> {
            &&& self.padded@.len() == 2 * self.partitions@.block_size
            &&& self.products@.len() == self.partitions@.count * 2 * self.partitions@.block_size
        }
    }

    pub proof fn lemma_valid(&self)
        requires
            self.wf(),
        ensures
            self@.valid(),
    {
    }

    /// An engine for `impulse_response` in `mode` with blocks of
    /// `block_size` samples, nothing pending; fails with `ConfigError` when
    /// the block size does not suit the mode.
    pub fn new(impulse_response: Vec<i16>, mode: ConvolutionMode, block_size: usize) -> (r: Result<
        Self,
        ConvolutionError,
    >)
        requires
            1 <= impulse_response@.len() <= MAX_RESPONSE_LEN,
            block_size <= MAX_BLOCK_SIZE,
        ensures
            match r {
                Ok(c) => {
                    &&& config_ok(mode, block_size as nat)
                    &&& c.wf()
                    &&& c@.valid()
                    &&& c@.ir == widen16(impulse_response@)
                    &&& c@.block_size == block_size
                    &&& c@.mode == mode
                    &&& c@.pending == zeros(
                        ((partition_count(impulse_response@.len(), block_size as nat) + 1)
                            * block_size) as nat,
                    )
                    &&& c@.remaining == c@.tail_size()
                },
                Err(e) => !config_ok(mode, block_size as nat) && e == ConvolutionError::ConfigError,
            },
    {
        let partitions = match PartitionSet::new(impulse_response, mode, block_size) {
            Ok(p) => p,
            Err(e) => {
                return Err(e);
            },
        };
        proof {
            partitions.lemma_valid();
        }
        let b = partitions.block_size();
        let count = partitions.partition_count();
        let m = partitions.response_len();
        proof {
            assert((count - 1) * b + b == count * b) by (nonlinear_arith);
            assert(count * b + b == (count + 1) * b) by (nonlinear_arith);
            assert(count * 2 * b == 2 * (count * b)) by (nonlinear_arith);
            assert((count + 1) * b <= m + 2 * b);
            assert(count * 2 * b <= 2 * m + 2 * b);
            assert(count <= count * b) by (nonlinear_arith)
                requires
                    b >= 1,
            ;
        }
        let buffer = AccumulationBuffer::new((count + 1) * b);
        let (padded, products) = match mode {
            ConvolutionMode::FrequencyDomain => (vec![0i16; 2 * b], vec![0i64; count * 2 * b]),
            ConvolutionMode::TimeDomain => (Vec::new(), Vec::new()),
        };
        let c = FastConvolver { partitions, buffer, remaining: m - 1, padded, products };
        assert forall|j: int| 0 <= j < c@.pending.len() implies -tail_bound(m as int, j)
            <= #[trigger] c@.pending[j] <= tail_bound(m as int, j) by {
            assert(c@.pending[j] == 0);
        }
        Ok(c)
    }

    /// Moves the next block of pending energy into the front of `output`,
    /// leaving the rest of it alone, and advances the cursor by one block.
    pub fn add_buffer(&mut self, output: &mut [i64])
        requires
            old(self).wf(),
            old(output)@.len() >= old(self)@.block_size,
        ensures
            final(self).wf(),
            final(self)@ == old(self)@.advanced(old(self)@.block_size),
            final(output)@.len() == old(output)@.len(),
            forall|i: int|
                0 <= i < old(self)@.block_size ==> #[trigger] final(output)@[i] == old(
                    self,
                )@.pending[i],
            forall|i: int|
                old(self)@.block_size <= i < old(output)@.len() ==> #[trigger] final(output)@[i]
                    == old(output)@[i],
    {
        proof {
            self.partitions.lemma_valid();
            assert((self.partitions@.count + 1) * self.partitions@.block_size
                >= self.partitions@.block_size) by (nonlinear_arith);
        }
        let b = self.partitions.block_size();
        self.buffer.drain_front(output, b);
        proof {
            lemma_drained_bounded(old(self)@.pending, old(self)@.ir.len() as int, b as int);
        }
    }

    /// Convolves one input block: `output` receives the block's samples of
    /// the stream's convolution, and the rest of its energy becomes pending.
    /// Fails with `LengthMismatch`, changing nothing, when either block is not
    /// one block long.
    pub fn process(&mut self, input: &[i16], output: &mut [i64]) -> (r: Result<(), ConvolutionError>)
        requires
            old(self).wf(),
        ensures
            final(self).wf(),
            input@.len() == old(self)@.block_size && old(output)@.len() == old(self)@.block_size
                ==> {
                &&& r is Ok
                &&& widen64(final(output)@) == block_output(
                    old(self)@.pending,
                    widen16(input@),
                    old(self)@.ir,
                )
                &&& final(self)@ == old(self)@.processed(widen16(input@))
            },
            !(input@.len() == old(self)@.block_size && old(output)@.len() == old(self)@.block_size)
                ==> {
                &&& r == Err::<(), ConvolutionError>(ConvolutionError::LengthMismatch)
                &&& final(self)@ == old(self)@
                &&& final(output)@ == old(output)@
            },
    {
        proof {
            self.partitions.lemma_valid();
        }
        let b = self.partitions.block_size();
        if input.len() != b || output.len() != b {
            return Err(ConvolutionError::LengthMismatch);
        }
        let ghost p = self@.pending;
        let ghost x = widen16(input@);
        let ghost ir = self@.ir;
        let ghost m = ir.len() as int;
        proof {
            assert((self.partitions@.count + 1) * b >= b) by (nonlinear_arith);
        }
        self.buffer.drain_front(output, b);
        proof {
            assert forall|i: int| 0 <= i < b implies -partial_bound() <= #[trigger] output@[i]
                <= partial_bound() by {
                assert(-tail_bound(m, i) <= p[i] <= tail_bound(m, i));
                assert(tail_bound(m, i) <= MAX_RESPONSE_LEN * product_bound());
            }
            lemma_drained_bounded(p, m, b as int);
            assert forall|j: int| 0 <= j < self.buffer@.len() implies -partial_bound()
                <= #[trigger] self.buffer@[j] <= partial_bound() by {
                assert(-tail_bound(m, j) <= self.buffer@[j] <= tail_bound(m, j));
                assert(tail_bound(m, j) <= MAX_RESPONSE_LEN * product_bound());
            }
        }
        match self.partitions.mode() {
            ConvolutionMode::FrequencyDomain => {
                spectral_products(&self.partitions, input, &mut self.padded, &mut self.products);
            },
            ConvolutionMode::TimeDomain => {},
        }
        overlap_add(&self.partitions, &self.products, &mut self.buffer, input, output);
        self.remaining = self.partitions.response_len() - 1;
        proof {
            assert(widen64(output@) =~= block_output(p, x, ir));
            assert(self.buffer@ =~= next_pending(p, x, ir));
            crate::signal::lemma_widen16_range(input@);
            lemma_next_pending_bounded(p, x, ir);
        }
        Ok(())
    }

    /// Hands out the tail: moves `min(output.len(), remaining)` pending
    /// samples into the front of `output`, leaves the rest of it alone, and
    /// returns that count.
    pub fn flush(&mut self, output: &mut [i64]) -> (count: usize)
        requires
            old(self).wf(),
        ensures
            final(self).wf(),
            count == if old(output)@.len() < old(self)@.remaining {
                old(output)@.len()
            } else {
                old(self)@.remaining
            },
            final(output)@.len() == old(output)@.len(),
            forall|i: int| 0 <= i < count ==> #[trigger] final(output)@[i] == old(self)@.pending[i],
            forall|i: int|
                count <= i < old(output)@.len() ==> #[trigger] final(output)@[i] == old(output)@[i],
            final(self)@ == (ConvolverModel {
                remaining: (old(self)@.remaining - count) as nat,
                ..old(self)@.advanced(count as nat)
            }),
    {
        let n = if output.len() < self.remaining {
            output.len()
        } else {
            self.remaining
        };
        self.buffer.drain_front(output, n);
        self.remaining = self.remaining - n;
        proof {
            lemma_drained_bounded(old(self)@.pending, old(self)@.ir.len() as int, n as int);
        }
        n
    }

    /// Number of samples of tail after the last input sample: one fewer than
    /// the response's length.
    pub fn get_output_tail_size(&self) -> (r: usize)
        requires
            self.wf(),
        ensures
            r == self@.tail_size(),
    {
        self.partitions.response_len() - 1
    }

    /// Drops all pending energy and restarts the tail; the response and the
    /// configuration stay.
    pub fn reset(&mut self)
        requires
            old(self).wf(),
        ensures
            final(self).wf(),
            final(self)@ == old(self)@.cleared(),
    {
        self.buffer.reset();
        self.remaining = self.partitions.response_len() - 1;
        proof {
            let m = self@.ir.len() as int;
            assert forall|j: int| 0 <= j < self@.pending.len() implies -tail_bound(m, j)
                <= #[trigger] self@.pending[j] <= tail_bound(m, j) by {
                assert(self@.pending[j] == 0);
            }
        }
    }

    pub fn block_size(&self) -> (r: usize)
        ensures
            r == self@.block_size,
    {
        self.partitions.block_size()
    }

    pub fn mode(&self) -> (r: ConvolutionMode)
        ensures
            r == self@.mode,
    {
        self.partitions.mode()
    }
}

/// Convolves a whole signal with `impulse_response`: a fresh engine takes
/// the signal block by block, then hands out the whole tail. The result is
/// the full linear convolution, whichever mode and block size are used.
/// Fails with `ConfigError` when the block size does not suit the mode, and
/// with `LengthMismatch` when the signal is not a whole number of blocks.
pub fn convolve_stream(
    impulse_response: Vec<i16>,
    mode: ConvolutionMode,
    block_size: usize,
    signal: &[i16],
) -> (r: Result<Vec<i64>, ConvolutionError>)
    requires
        1 <= impulse_response@.len() <= MAX_RESPONSE_LEN,
        block_size <= MAX_BLOCK_SIZE,
    ensures
        match r {
            Ok(y) => {
                &&& config_ok(mode, block_size as nat)
                &&& signal@.len() % block_size as nat == 0
                &&& widen64(y@) == convolution(widen16(signal@), widen16(impulse_response@))
            },
            Err(e) => {
                ||| !config_ok(mode, block_size as nat) && e == ConvolutionError::ConfigError
                ||| config_ok(mode, block_size as nat) && signal@.len() % block_size as nat != 0
                    && e == ConvolutionError::LengthMismatch
            },
        },
{
    let ghost h = widen16(impulse_response@);
    let ghost x = widen16(signal@);
    let mut c = match FastConvolver::new(impulse_response, mode, block_size) {
        Ok(c) => c,
        Err(e) => {
            return Err(e);
        },
    };
    let b = block_size;
    if signal.len() % b != 0 {
        return Err(ConvolutionError::LengthMismatch);
    }
    let ghost cap = c@.pending.len();
    let mut out: Vec<i64> = Vec::new();
    let mut block: Vec<i16> = vec![0i16; b];
    let mut frame: Vec<i64> = vec![0i64; b];
    let mut pos: usize = 0;
    let len = signal.len();
    let ghost mut k: nat = 0;
    while pos < len
        invariant
            len == signal@.len(),
            c.wf(),
            c@.valid(),
            c@.ir == h,
            c@.block_size == b,
            b >= 1,
            c@.pending.len() == cap,
            c@.remaining == c@.tail_size(),
            x == widen16(signal@),
            signal@.len() % b as nat == 0,
            pos == k * b,
            pos <= signal@.len(),
            block@.len() == b,
            frame@.len() == b,
            c@.pending == stream_state(zeros(cap), x, h, b as nat, k),
            widen64(out@) == stream_outputs(zeros(cap), x, h, b as nat, k),
        decreases signal@.len() - pos,
    {
        proof {
            assert(pos + b <= signal@.len()) by (nonlinear_arith)
                requires
                    pos == k * b,
                    pos < signal@.len(),
                    signal@.len() % b as nat == 0,
                    b >= 1,
            ;
        }
        let mut a: usize = 0;
        while a < b
            invariant
                a <= b,
                pos + b <= len,
                len == signal@.len(),
                block@.len() == b,
                forall|j: int| 0 <= j < a ==> #[trigger] block@[j] == signal@[pos + j],
            decreases b - a,
        {
            block.set(a, signal[pos + a]);
            a = a + 1;
        }
        let ghost xb = x.subrange(pos as int, (pos + b) as int);
        assert(widen16(block@) =~= xb);
        let ghost before = out@;
        let res = c.process(block.as_slice(), frame.as_mut_slice());
        assert(widen64(frame@).len() == frame@.len());
        let mut j: usize = 0;
        while j < b
            invariant
                j <= b,
                frame@.len() == b,
                out@ == before + frame@.subrange(0, j as int),
            decreases b - j,
        {
            out.push(frame[j]);
            j = j + 1;
            assert(out@ =~= before + frame@.subrange(0, j as int));
        }
        proof {
            assert(frame@.subrange(0, b as int) =~= frame@);
            assert(widen64(out@) =~= widen64(before) + widen64(frame@));
            assert(((k + 1) - 1) * b == pos);
            assert((k + 1) * b == pos + b) by (nonlinear_arith)
                requires
                    pos == k * b,
            ;
            k = k + 1;
        }
        pos = pos + b;
    }
    let t = c.get_output_tail_size();
    let mut tail: Vec<i64> = vec![0i64; t];
    let n = c.flush(tail.as_mut_slice());
    let ghost before = out@;
    let mut i: usize = 0;
    while i < n
        invariant
            i <= n,
            n == t,
            tail@.len() == t,
            out@ == before + tail@.subrange(0, i as int),
        decreases n - i,
    {
        out.push(tail[i]);
        i = i + 1;
        assert(out@ =~= before + tail@.subrange(0, i as int));
    }
    proof {
        assert(tail@.subrange(0, n as int) =~= tail@);
        assert(widen64(out@) =~= widen64(before) + widen64(tail@));
        assert(signal@.len() / b as nat == k) by (nonlinear_arith)
            requires
                signal@.len() == k * b,
                b >= 1,
        ;
        assert(widen64(tail@) =~= stream_state(
            zeros(cap),
            x,
            h,
            b as nat,
            k,
        ).subrange(0, h.len() - 1));
        assert(widen64(out@) =~= stream_result(h, b as nat, cap, x));
        lemma_stream_is_convolution(h, b as nat, cap, x);
    }
    Ok(out)
}

} // verus!
