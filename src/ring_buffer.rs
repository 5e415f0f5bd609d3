use vstd::prelude::*;

verus! {

/// Abstract state of a [`RingBuffer`]: its slots, the write position (`head`),
/// the read position (`tail`) and the value that empty slots hold.
pub ghost struct RingModel<T> {
    pub slots: Seq<T>,
    pub head: Option<usize>,
    pub tail: Option<usize>,
    pub blank: T,
}

impl<T> RingModel<T> {
    /// Every stored position lies inside the slots.
    pub open spec fn valid(self) -> bool {
        &&& self.slots.len() <= usize::MAX
        &&& (self.head matches Some(h) ==> h < self.slots.len())
        &&& (self.tail matches Some(t) ==> t < self.slots.len())
    }

    pub open spec fn capacity(self) -> nat {
        self.slots.len()
    }

    /// Slot reached by stepping `n` places forward from `from`, wrapping around.
    pub open spec fn wrap(self, from: int, n: int) -> int {
        (from + n) % (self.capacity() as int)
    }

    /// Number of values between the read and the write position, both included.
    pub open spec fn count(self) -> nat {
        match (self.head, self.tail) {
            (Some(h), Some(t)) => if h >= t {
                (h - t + 1) as nat
            } else {
                (h + self.capacity() - t + 1) as nat
            },
            _ => 0,
        }
    }

    /// All slots hold the blank value.
    pub open spec fn is_blank(self) -> bool {
        forall|i: int| 0 <= i < self.slots.len() ==> self.slots[i] == self.blank
    }
}

/// A fixed-size circular buffer with separate read and write positions.
///
/// Before the first write both positions are unset; `put` and `push` set them.
pub struct RingBuffer<T> {
    buffer: Vec<T>,
    capacity: usize,
    head: Option<usize>,
    tail: Option<usize>,
    blank: T,
}

impl<T> View for RingBuffer<T> {
    type V = RingModel<T>;

    closed spec fn view(&self) -> RingModel<T> {
        RingModel { slots: self.buffer@, head: self.head, tail: self.tail, blank: self.blank }
    }
}

impl<T: Copy + Default> RingBuffer<T> {
    pub closed spec fn wf(&self) -> bool {
        &&& self.capacity == self.buffer@.len()
        &&& self@.valid()
    }

    pub proof fn lemma_valid(&self)
        requires
            self.wf(),
        ensures
            self@.valid(),
            self@.capacity() <= usize::MAX,
    {
    }

    /// An empty buffer of `capacity` slots, each holding `T::default()`.
    pub fn new(capacity: usize) -> (r: Self)
        ensures
            r.wf(),
            call_ensures(T::default, (), r@.blank),
            r@.capacity() == capacity,
            r@.head is None,
            r@.tail is None,
            r@.is_blank(),
    {
        let blank = T::default();
        let mut buffer: Vec<T> = Vec::new();
        let mut i: usize = 0;
        while i < capacity
            invariant
                i <= capacity,
                buffer@.len() == i,
                forall|k: int| 0 <= k < i ==> buffer@[k] == blank,
            decreases capacity - i,
        {
            buffer.push(blank);
            i = i + 1;
        }
        RingBuffer { buffer, capacity, head: None, tail: None, blank }
    }

    /// Fills every slot with the blank value and unsets both positions.
    pub fn reset(&mut self)
        requires
            old(self).wf(),
        ensures
            final(self).wf(),
            final(self)@.capacity() == old(self)@.capacity(),
            final(self)@.blank == old(self)@.blank,
            final(self)@.head is None,
            final(self)@.tail is None,
            final(self)@.is_blank(),
    {
        let mut i: usize = 0;
        while i < self.buffer.len()
            invariant
                i <= self.buffer@.len(),
                self.buffer@.len() == old(self).buffer@.len(),
                self.capacity == old(self).capacity,
                self.blank == old(self).blank,
                forall|k: int| 0 <= k < i ==> self.buffer@[k] == self.blank,
            decreases self.buffer@.len() - i,
        {
            let b = self.blank;
            self.buffer.set(i, b);
            i = i + 1;
        }
        self.head = None;
        self.tail = None;
    }

    /// Writes `value` at the write position without moving it; on a buffer
    /// with no write position yet, both positions start at slot 0.
    pub fn put(&mut self, value: T)
        requires
            old(self).wf(),
            old(self)@.capacity() > 0,
        ensures
            final(self).wf(),
            final(self)@.blank == old(self)@.blank,
            match old(self)@.head {
                None => {
                    &&& final(self)@.slots == old(self)@.slots.update(0, value)
                    &&& final(self)@.head == Some(0usize)
                    &&& final(self)@.tail == Some(0usize)
                },
                Some(h) => {
                    &&& final(self)@.slots == old(self)@.slots.update(h as int, value)
                    &&& final(self)@.head == old(self)@.head
                    &&& final(self)@.tail == old(self)@.tail
                },
            },
    {
        match self.head {
            None => {
                self.head = Some(0);
                self.tail = Some(0);
                self.buffer.set(0, value);
            },
            Some(h) => {
                self.buffer.set(h, value);
            },
        }
    }

    /// The value at the read position, or the blank value when it is unset.
    pub fn peek(&self) -> (r: T)
        requires
            self.wf(),
        ensures
            r == match self@.tail {
                None => self@.blank,
                Some(t) => self@.slots[t as int],
            },
    {
        match self.tail {
            None => self.blank,
            Some(t) => self.buffer[t],
        }
    }

    /// The value `offset` slots after the read position, wrapping around, or
    /// the blank value when the read position is unset.
    pub fn get(&self, offset: usize) -> (r: T)
        requires
            self.wf(),
        ensures
            r == match self@.tail {
                None => self@.blank,
                Some(t) => self@.slots[self@.wrap(t as int, offset as int)],
            },
    {
        match self.tail {
            None => self.blank,
            Some(t) => {
                let cap = self.capacity;
                let step = offset % cap;
                let idx = if step >= cap - t {
                    step - (cap - t)
                } else {
                    t + step
                };
                proof {
                    lemma_wrap_index(t as int, offset as int, cap as int);
                }
                self.buffer[idx]
            },
        }
    }

    /// Advances the write position by one slot (or starts both positions at
    /// slot 0 when there is none yet) and writes `value` there.
    pub fn push(&mut self, value: T)
        requires
            old(self).wf(),
            old(self)@.capacity() > 0,
        ensures
            final(self).wf(),
            final(self)@.blank == old(self)@.blank,
            match old(self)@.head {
                None => {
                    &&& final(self)@.slots == old(self)@.slots.update(0, value)
                    &&& final(self)@.head == Some(0usize)
                    &&& final(self)@.tail == Some(0usize)
                },
                Some(h) => {
                    &&& final(self)@.head == Some(old(self)@.wrap(h as int, 1) as usize)
                    &&& final(self)@.slots == old(self)@.slots.update(
                        old(self)@.wrap(h as int, 1),
                        value,
                    )
                    &&& final(self)@.tail == old(self)@.tail
                },
            },
    {
        match self.head {
            None => {
                self.head = Some(0);
                self.tail = Some(0);
                self.buffer.set(0, value);
            },
            Some(h) => {
                let next = if h + 1 == self.capacity {
                    0
                } else {
                    h + 1
                };
                proof {
                    lemma_wrap_step(h as int, self.capacity as int);
                }
                self.head = Some(next);
                self.buffer.set(next, value);
            },
        }
    }

    /// Reads the value at the read position and advances that position by one
    /// slot; `None` when the read position is unset.
    pub fn pop(&mut self) -> (r: Option<T>)
        requires
            old(self).wf(),
        ensures
            final(self).wf(),
            final(self)@.slots == old(self)@.slots,
            final(self)@.blank == old(self)@.blank,
            final(self)@.head == old(self)@.head,
            match old(self)@.tail {
                None => r is None && final(self)@.tail is None,
                Some(t) => {
                    &&& r == Some(old(self)@.slots[t as int])
                    &&& final(self)@.tail == Some(old(self)@.wrap(t as int, 1) as usize)
                },
            },
    {
        match self.tail {
            None => None,
            Some(t) => {
                let value = self.buffer[t];
                let next = if t + 1 == self.capacity {
                    0
                } else {
                    t + 1
                };
                proof {
                    lemma_wrap_step(t as int, self.capacity as int);
                }
                self.tail = Some(next);
                Some(value)
            },
        }
    }

    /// The read position, 0 when it is unset.
    pub fn get_read_index(&self) -> (r: usize)
        ensures
            r == match self@.tail {
                None => 0,
                Some(t) => t,
            },
    {
        match self.tail {
            None => 0,
            Some(t) => t,
        }
    }

    /// Moves the read position to `index`, wrapped into the buffer.
    pub fn set_read_index(&mut self, index: usize)
        requires
            old(self).wf(),
            old(self)@.capacity() > 0,
        ensures
            final(self).wf(),
            final(self)@ == (RingModel {
                tail: Some((index as int % old(self)@.capacity() as int) as usize),
                ..old(self)@
            }),
    {
        self.tail = Some(index % self.capacity);
    }

    /// The write position, 0 when it is unset.
    pub fn get_write_index(&self) -> (r: usize)
        ensures
            r == match self@.head {
                None => 0,
                Some(h) => h,
            },
    {
        match self.head {
            None => 0,
            Some(h) => h,
        }
    }

    /// Moves the write position to `index`, wrapped into the buffer.
    pub fn set_write_index(&mut self, index: usize)
        requires
            old(self).wf(),
            old(self)@.capacity() > 0,
        ensures
            final(self).wf(),
            final(self)@ == (RingModel {
                head: Some((index as int % old(self)@.capacity() as int) as usize),
                ..old(self)@
            }),
    {
        self.head = Some(index % self.capacity);
    }

    /// Number of values from the read position up to and including the
    /// write position; 0 while either is unset.
    pub fn len(&self) -> (r: usize)
        requires
            self.wf(),
        ensures
            r == self@.count(),
    {
        match (self.head, self.tail) {
            (Some(h), Some(t)) => {
                if h >= t {
                    h - t + 1
                } else {
                    self.capacity - t + h + 1
                }
            },
            _ => 0,
        }
    }

    /// The slots in storage order, independent of the two positions.
    pub fn slots(&self) -> (r: &[T])
        ensures
            r@ == self@.slots,
    {
        self.buffer.as_slice()
    }

    /// Number of slots.
    pub fn capacity(&self) -> (r: usize)
        requires
            self.wf(),
        ensures
            r == self@.capacity(),
    {
        self.capacity
    }
}

proof fn lemma_wrap_step(t: int, cap: int)
    requires
        0 <= t < cap,
    ensures
        (t + 1) % cap == if t + 1 == cap { 0 } else { t + 1 },
{
    if t + 1 == cap {
        vstd::arithmetic::div_mod::lemma_mod_self_0(cap);
    } else {
        vstd::arithmetic::div_mod::lemma_small_mod((t + 1) as nat, cap as nat);
    }
}

proof fn lemma_wrap_index(t: int, offset: int, cap: int)
    requires
        0 <= t < cap,
        offset >= 0,
    ensures
        offset % cap < cap - t ==> (t + offset) % cap == t + offset % cap,
        offset % cap >= cap - t ==> (t + offset) % cap == offset % cap - (cap - t),
{
    let q = offset / cap;
    let r = offset % cap;
    vstd::arithmetic::div_mod::lemma_fundamental_div_mod(offset, cap);
    if r < cap - t {
        vstd::arithmetic::div_mod::lemma_mod_multiples_vanish(q, t + r, cap);
        vstd::arithmetic::div_mod::lemma_small_mod((t + r) as nat, cap as nat);
        assert(t + offset == cap * q + (t + r));
    } else {
        vstd::arithmetic::div_mod::lemma_mod_multiples_vanish(q + 1, t + r - cap, cap);
        vstd::arithmetic::div_mod::lemma_small_mod((t + r - cap) as nat, cap as nat);
        assert(t + offset == cap * (q + 1) + (t + r - cap)) by (nonlinear_arith)
            requires
                offset == cap * q + r,
        ;
    }
}

} // verus!
