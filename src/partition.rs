use crate::fast_convolver::{ConvolutionError, ConvolutionMode};
use crate::signal::{is_sample16, tap, widen16};
use vstd::prelude::*;

verus! {

/// Longest impulse response accepted: sums of products of 16-bit samples
/// over it stay well inside 64 bits, and positions inside `usize`.
pub const MAX_RESPONSE_LEN: usize = 0x4000_0000;

/// Largest block size accepted, for the same reasons.
pub const MAX_BLOCK_SIZE: usize = 0x2000_0000;

pub open spec fn is_power_of_two(n: nat) -> bool
    decreases n,
{
    if n <= 1 {
        n == 1
    } else {
        n % 2 == 0 && is_power_of_two(n / 2)
    }
}

/// Whether `block_size` is usable in `mode`: positive, and a power of two
/// for the frequency-domain strategy.
pub open spec fn config_ok(mode: ConvolutionMode, block_size: nat) -> bool {
    &&& block_size >= 1
    &&& (mode == ConvolutionMode::FrequencyDomain ==> is_power_of_two(block_size))
}

/// Number of partitions of `block_size` that a response of `m` coefficients
/// needs: `m / block_size`, rounded up.
pub open spec fn partition_count(m: nat, block_size: nat) -> nat {
    ((m + block_size - 1) as nat / block_size) as nat
}

/// The only count of partitions that covers the response without a spare
/// one is the rounded-up quotient.
pub proof fn lemma_partition_count(count: nat, m: nat, b: nat)
    requires
        b >= 1,
        count * b >= m,
        (count - 1) * b < m,
    ensures
        count == partition_count(m, b),
{
    let q = (m + b - 1) as int / (b as int);
    let r = (m + b - 1) as int % (b as int);
    vstd::arithmetic::div_mod::lemma_fundamental_div_mod((m + b - 1) as int, b as int);
    assert(0 <= r < b);
    assert(b * q == q * b) by (nonlinear_arith);
    if count >= q + 1 {
        assert((count - 1) * b >= q * b) by (nonlinear_arith)
            requires
                count - 1 >= q,
                b >= 1,
        ;
        assert(false);
    }
    if count + 1 <= q {
        assert((count + 1) * b <= q * b) by (nonlinear_arith)
            requires
                count + 1 <= q,
                b >= 1,
        ;
        assert((count + 1) * b == count * b + b) by (nonlinear_arith);
        assert(false);
    }
}

/// Partition `i` of the response `ir`: `block_size` coefficients starting at
/// `i * block_size`, zero past the response's end.
pub open spec fn partition_of(ir: Seq<int>, block_size: nat, i: int) -> Seq<int> {
    Seq::new(block_size, |r: int| tap(ir, i * block_size + r))
}

/// Partition `i` extended with `block_size` zeros.
pub open spec fn extended_partition_of(ir: Seq<int>, block_size: nat, i: int) -> Seq<int> {
    Seq::new(
        2 * block_size,
        |r: int|
            if r < block_size {
                tap(ir, i * block_size + r)
            } else {
                0
            },
    )
}

/// Abstract state of a [`PartitionSet`].
pub ghost struct PartitionModel {
    pub ir: Seq<int>,
    pub block_size: nat,
    pub mode: ConvolutionMode,
    pub count: nat,
}

impl PartitionModel {
    /// `count` partitions of `block_size` cover the response, and one fewer
    /// would not.
    pub open spec fn valid(self) -> bool {
        &&& 1 <= self.ir.len() <= MAX_RESPONSE_LEN
        &&& is_sample16(self.ir)
        &&& config_ok(self.mode, self.block_size)
        &&& self.block_size <= MAX_BLOCK_SIZE
        &&& self.count * self.block_size >= self.ir.len()
        &&& (self.count - 1) * self.block_size < self.ir.len()
    }
}

/// The impulse response cut into consecutive partitions of one block each,
/// the last one padded with zeros; for the frequency-domain strategy each
/// partition is also kept extended to two blocks.
pub struct PartitionSet {
    block_size: usize,
    response_len: usize,
    mode: ConvolutionMode,
    time: Vec<Vec<i16>>,
    extended: Vec<Vec<i16>>,
    response: Ghost<Seq<int>>,
}

impl View for PartitionSet {
    type V = PartitionModel;

    closed spec fn view(&self) -> PartitionModel {
        PartitionModel {
            ir: self.response@,
            block_size: self.block_size as nat,
            mode: self.mode,
            count: self.time@.len(),
        }
    }
}

/// Whether `n` is a power of two.
pub fn power_of_two(n: usize) -> (r: bool)
    ensures
        r == is_power_of_two(n as nat),
{
    if n == 0 {
        return false;
    }
    let mut v = n;
    while v > 1 && v % 2 == 0
        invariant
            v >= 1,
            is_power_of_two(v as nat) == is_power_of_two(n as nat),
        decreases v,
    {
        v = v / 2;
    }
    v == 1
}

impl PartitionSet {
    pub closed spec fn wf(&self) -> bool {
        let b = self.block_size as int;
        &&& self@.valid()
        &&& self.response_len == self.response@.len()
        &&& forall|i: int|
            0 <= i < self.time@.len() ==> #[trigger] widen16(self.time@[i]@) == partition_of(
                self.response@,
                self.block_size as nat,
                i,
            )
        &&& self.mode == ConvolutionMode::FrequencyDomain ==> {
            &&& self.extended@.len() == self.time@.len()
            &&& forall|i: int|
                0 <= i < self.time@.len() ==> #[trigger] widen16(self.extended@[i]@)
                    == extended_partition_of(self.response@, self.block_size as nat, i)
        }
    }

    pub proof fn lemma_valid(&self)
        requires
            self.wf(),
        ensures
            self@.valid(),
    {
    }

    /// Splits `impulse_response` into partitions of `block_size`; fails with
    /// `ConfigError` when the block size does not suit `mode`.
    pub fn new(impulse_response: Vec<i16>, mode: ConvolutionMode, block_size: usize) -> (r: Result<
        Self,
        ConvolutionError,
    >)
        requires
            1 <= impulse_response@.len() <= MAX_RESPONSE_LEN,
            block_size <= MAX_BLOCK_SIZE,
        ensures
            match r {
                Ok(p) => {
                    &&& config_ok(mode, block_size as nat)
                    &&& p.wf()
                    &&& p@.ir == widen16(impulse_response@)
                    &&& p@.block_size == block_size
                    &&& p@.mode == mode
                    &&& p@.count == partition_count(impulse_response@.len(), block_size as nat)
                },
                Err(e) => !config_ok(mode, block_size as nat) && e == ConvolutionError::ConfigError,
            },
    {
        if block_size == 0 {
            return Err(ConvolutionError::ConfigError);
        }
        match mode {
            ConvolutionMode::FrequencyDomain => {
                if !power_of_two(block_size) {
                    return Err(ConvolutionError::ConfigError);
                }
            },
            ConvolutionMode::TimeDomain => {},
        }
        let ghost ir = widen16(impulse_response@);
        let m = impulse_response.len();
        let b = block_size;
        let mut time: Vec<Vec<i16>> = Vec::new();
        let mut extended: Vec<Vec<i16>> = Vec::new();
        let mut start: usize = 0;
        while start < m
            invariant
                1 <= m <= MAX_RESPONSE_LEN,
                1 <= b <= MAX_BLOCK_SIZE,
                m == impulse_response@.len(),
                ir == widen16(impulse_response@),
                start == time@.len() * b,
                time@.len() > 0 ==> (time@.len() - 1) * b < m,
                start <= m + b,
                extended@.len() == time@.len(),
                forall|i: int|
                    0 <= i < time@.len() ==> #[trigger] widen16(time@[i]@) == partition_of(
                        ir,
                        b as nat,
                        i,
                    ),
                forall|i: int|
                    0 <= i < time@.len() ==> #[trigger] widen16(extended@[i]@)
                        == extended_partition_of(ir, b as nat, i),
            decreases m + b - start,
        {
            let ghost i = time@.len() as int;
            let mut part: Vec<i16> = Vec::new();
            let mut long: Vec<i16> = Vec::new();
            let mut r: usize = 0;
            while r < b
                invariant
                    r <= b,
                    1 <= b <= MAX_BLOCK_SIZE,
                    m <= MAX_RESPONSE_LEN,
                    start < m,
                    start == i * b,
                    m == impulse_response@.len(),
                    ir == widen16(impulse_response@),
                    part@.len() == r,
                    long@.len() == r,
                    forall|k: int| 0 <= k < r ==> #[trigger] part@[k] as int == tap(ir, i * b + k),
                    forall|k: int| 0 <= k < r ==> #[trigger] long@[k] == part@[k],
                decreases b - r,
            {
                let k = start + r;
                let v: i16 = if k < m {
                    impulse_response[k]
                } else {
                    0
                };
                part.push(v);
                long.push(v);
                r = r + 1;
            }
            while r < 2 * b
                invariant
                    b <= r <= 2 * b,
                    1 <= b <= MAX_BLOCK_SIZE,
                    part@.len() == b,
                    long@.len() == r,
                    forall|k: int| 0 <= k < b ==> #[trigger] long@[k] == part@[k],
                    forall|k: int| b <= k < r ==> #[trigger] long@[k] == 0,
                decreases 2 * b - r,
            {
                long.push(0);
                r = r + 1;
            }
            assert(widen16(part@) =~= partition_of(ir, b as nat, i));
            assert(widen16(long@) =~= extended_partition_of(ir, b as nat, i));
            time.push(part);
            extended.push(long);
            proof {
                assert(time@.len() * b == start + b) by (nonlinear_arith)
                    requires
                        time@.len() == i + 1,
                        start == i * b,
                ;
            }
            start = start + b;
        }
        match mode {
            ConvolutionMode::TimeDomain => {
                extended = Vec::new();
            },
            ConvolutionMode::FrequencyDomain => {},
        }
        proof {
            lemma_partition_count(time@.len(), m as nat, b as nat);
        }
        let p = PartitionSet {
            block_size: b,
            response_len: m,
            mode,
            time,
            extended,
            response: Ghost(ir),
        };
        Ok(p)
    }

    pub fn block_size(&self) -> (r: usize)
        ensures
            r == self@.block_size,
    {
        self.block_size
    }

    pub fn response_len(&self) -> (r: usize)
        requires
            self.wf(),
        ensures
            r == self@.ir.len(),
    {
        self.response_len
    }

    pub fn mode(&self) -> (r: ConvolutionMode)
        ensures
            r == self@.mode,
    {
        self.mode
    }

    pub fn partition_count(&self) -> (r: usize)
        ensures
            r == self@.count,
    {
        self.time.len()
    }

    /// Partition `i`, one block long.
    pub fn get_time_partition(&self, i: usize) -> (r: &[i16])
        requires
            self.wf(),
            i < self@.count,
        ensures
            widen16(r@) == partition_of(self@.ir, self@.block_size, i as int),
    {
        self.time[i].as_slice()
    }

    /// Partition `i` extended with zeros to two blocks, as the
    /// frequency-domain strategy uses it.
    pub fn get_frequency_partition(&self, i: usize) -> (r: &[i16])
        requires
            self.wf(),
            self@.mode == ConvolutionMode::FrequencyDomain,
            i < self@.count,
        ensures
            widen16(r@) == extended_partition_of(self@.ir, self@.block_size, i as int),
    {
        self.extended[i].as_slice()
    }

    /// Coefficient `k` of the response, read through its partition.
    pub fn tap(&self, k: usize) -> (r: i16)
        requires
            self.wf(),
            k < self@.count * self@.block_size,
        ensures
            r as int == tap(self@.ir, k as int),
    {
        let b = self.block_size;
        let i = k / b;
        let r = k % b;
        proof {
            let p = self.time@.len() as int;
            vstd::arithmetic::div_mod::lemma_fundamental_div_mod(k as int, b as int);
            assert(i < p) by (nonlinear_arith)
                requires
                    k == b * i + r,
                    0 <= r < b,
                    k < p * b,
                    i >= 0,
            ;
            assert(widen16(self.time@[i as int]@).len() == self.time@[i as int]@.len());
            assert(partition_of(self@.ir, b as nat, i as int).len() == b);
            assert(widen16(self.time@[i as int]@)[r as int] == partition_of(
                self@.ir,
                b as nat,
                i as int,
            )[r as int]);
            assert(i * b + r == k) by (nonlinear_arith)
                requires
                    k == b * i + r,
            ;
        }
        self.time[i][r]
    }

    /// Coefficient `r` of the extended partition `i`.
    pub fn extended_tap(&self, i: usize, r: usize) -> (v: i16)
        requires
            self.wf(),
            self@.mode == ConvolutionMode::FrequencyDomain,
            i < self@.count,
            r < 2 * self@.block_size,
        ensures
            v as int == extended_partition_of(self@.ir, self@.block_size, i as int)[r as int],
    {
        proof {
            assert(widen16(self.extended@[i as int]@) == extended_partition_of(
                self@.ir,
                self@.block_size,
                i as int,
            ));
            assert(widen16(self.extended@[i as int]@).len() == self.extended@[i as int]@.len());
            assert(widen16(self.extended@[i as int]@)[r as int] == extended_partition_of(
                self@.ir,
                self@.block_size,
                i as int,
            )[r as int]);
        }
        self.extended[i][r]
    }
}

} // verus!
