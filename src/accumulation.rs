use crate::signal::{drained, widen64, zeros};
use vstd::prelude::*;

verus! {

/// Fixed-capacity store of convolution energy that is not yet part of any
/// output block. Position 0 is the sample right after the last block emitted.
pub struct AccumulationBuffer {
    data: Vec<i64>,
}

impl View for AccumulationBuffer {
    type V = Seq<int>;

    closed spec fn view(&self) -> Seq<int> {
        widen64(self.data@)
    }
}

impl AccumulationBuffer {
    /// A buffer of `capacity` zero positions.
    pub fn new(capacity: usize) -> (r: Self)
        ensures
            r@ == zeros(capacity as nat),
    {
        let mut data: Vec<i64> = Vec::new();
        let mut i: usize = 0;
        while i < capacity
            invariant
                i <= capacity,
                data@.len() == i,
                forall|k: int| 0 <= k < i ==> data@[k] == 0,
            decreases capacity - i,
        {
            data.push(0);
            i = i + 1;
        }
        let r = AccumulationBuffer { data };
        assert(r@ =~= zeros(capacity as nat));
        r
    }

    pub fn len(&self) -> (r: usize)
        ensures
            r == self@.len(),
    {
        self.data.len()
    }

    pub fn get(&self, offset: usize) -> (r: i64)
        requires
            offset < self@.len(),
        ensures
            r == self@[offset as int],
    {
        self.data[offset]
    }

    /// Moves the first `n` values into `dest[..n]`, shifts the rest down by
    /// `n` and fills the last `n` positions with zeros.
    pub fn drain_front(&mut self, dest: &mut [i64], n: usize)
        requires
            n <= old(dest)@.len(),
            n <= old(self)@.len(),
        ensures
            final(self)@ == drained(old(self)@, n as int),
            final(dest)@.len() == old(dest)@.len(),
            forall|i: int| 0 <= i < n ==> #[trigger] final(dest)@[i] == old(self)@[i],
            forall|i: int| n <= i < old(dest)@.len() ==> #[trigger] final(dest)@[i] == old(dest)@[i],
    {
        let len = self.data.len();
        let mut i: usize = 0;
        while i < n
            invariant
                i <= n <= len,
                n <= dest@.len(),
                self.data@ == old(self).data@,
                len == self.data@.len(),
                dest@.len() == old(dest)@.len(),
                forall|k: int| 0 <= k < i ==> #[trigger] dest@[k] == old(self).data@[k],
                forall|k: int| i <= k < dest@.len() ==> #[trigger] dest@[k] == old(dest)@[k],
            decreases n - i,
        {
            dest[i] = self.data[i];
            i = i + 1;
        }
        let mut j: usize = 0;
        while j < len
            invariant
                j <= len,
                n <= len,
                len == self.data@.len(),
                forall|k: int| 0 <= k < j ==> #[trigger] self.data@[k] == (if k + n < len {
                    old(self).data@[k + n]
                } else {
                    0
                }),
                forall|k: int| j <= k < len ==> #[trigger] self.data@[k] == old(self).data@[k],
            decreases len - j,
        {
            if j < len - n {
                let v = self.data[j + n];
                self.data.set(j, v);
            } else {
                self.data.set(j, 0);
            }
            j = j + 1;
        }
        assert(self@ =~= drained(old(self)@, n as int));
    }

    /// Adds `value` at `offset`.
    pub fn accumulate(&mut self, offset: usize, value: i64)
        requires
            offset < old(self)@.len(),
            i64::MIN <= old(self)@[offset as int] + value <= i64::MAX,
        ensures
            final(self)@ == old(self)@.update(offset as int, old(self)@[offset as int] + value),
    {
        let v = self.data[offset] + value;
        self.data.set(offset, v);
        assert(self@ =~= old(self)@.update(offset as int, old(self)@[offset as int] + value));
    }

    /// Sets every position back to zero.
    pub fn reset(&mut self)
        ensures
            final(self)@ == zeros(old(self)@.len()),
    {
        let mut i: usize = 0;
        while i < self.data.len()
            invariant
                i <= self.data@.len(),
                self.data@.len() == old(self).data@.len(),
                forall|k: int| 0 <= k < i ==> #[trigger] self.data@[k] == 0,
            decreases self.data@.len() - i,
        {
            self.data.set(i, 0);
            i = i + 1;
        }
        assert(self@ =~= zeros(old(self)@.len()));
    }
}

} // verus!
