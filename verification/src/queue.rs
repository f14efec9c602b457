use vstd::prelude::*;

verus! {

broadcast use vstd::array::group_array_axioms;

/// `(x + 1) % n` steps a ring cursor forward.
proof fn lemma_ring_step(x: usize, n: usize)
    requires
        x < n,
    ensures
        (x + 1) % (n as int) == if x + 1 == n { 0 } else { x + 1 },
{
    if x + 1 == n {
        vstd::arithmetic::div_mod::lemma_mod_self_0(n as int);
    } else {
        vstd::arithmetic::div_mod::lemma_small_mod((x + 1) as nat, n as nat);
    }
}

/// Returned by [`Queue::push`] when the queue holds no more room.
pub struct QueueErr;

/// A fixed capacity ring buffer. One slot always stays free, so a queue
/// with `N` slots holds at most `N - 1` items.
pub struct Queue<T, const N: usize> where T: Default + Copy {
    head: usize,
    tail: usize,
    buf: [T; N],
}

/// The number of items a queue with `n` slots can hold.
pub open spec fn queue_capacity(n: usize) -> int {
    n - 1
}

impl<T, const N: usize> Queue<T, N> where T: Default + Copy {
    /// Number of items between `head` and `tail`, walking forward around the ring.
    pub closed spec fn spec_len(&self) -> nat {
        if self.head <= self.tail {
            (self.tail - self.head) as nat
        } else {
            (self.tail + N - self.head) as nat
        }
    }

    /// Slot holding the `i`-th item counted from the head.
    pub closed spec fn slot(&self, i: int) -> int {
        if self.head + i < N {
            self.head + i
        } else {
            self.head + i - N
        }
    }

    /// The items in the order in which they leave the queue.
    pub closed spec fn view(&self) -> Seq<T> {
        Seq::new(self.spec_len(), |i: int| self.buf@[self.slot(i)])
    }

    /// Internal consistency: both cursors point inside the buffer.
    pub closed spec fn wf(&self) -> bool {
        &&& N == 0 ==> self.head == 0 && self.tail == 0
        &&& N > 0 ==> self.head < N && self.tail < N
    }

    /// A well formed queue holds at most `N - 1` items.
    pub proof fn lemma_len_bound(&self)
        requires
            self.wf(),
            N > 0,
        ensures
            self@.len() <= queue_capacity(N),
    {
    }

    /// Creates an empty queue.
    #[must_use]
    pub fn new() -> (q: Self)
        ensures
            q.wf(),
            q@ == Seq::<T>::empty(),
    {
        Self { buf: [T::default(); N], head: 0, tail: 0 }
    }

    /// Appends `val` at the back. Fails, leaving the queue unchanged, when it
    /// already holds `N - 1` items.
    pub fn push(&mut self, val: T) -> (r: Result<(), QueueErr>)
        requires
            old(self).wf(),
            N > 0,
        ensures
            final(self).wf(),
            r is Err <==> old(self)@.len() == queue_capacity(N),
            r is Ok ==> final(self)@ == old(self)@.push(val),
            r is Err ==> final(self)@ == old(self)@,
    {
        proof {
            lemma_ring_step(self.tail, N);
        }
        let next = (self.tail + 1) % N;
        if next == self.head {
            return Err(QueueErr);
        }
        let ghost before = self@;
        self.buf[self.tail] = val;
        self.tail = next;
        assert(self@ =~= before.push(val));
        Ok(())
    }

    /// The item at the front, if any.
    pub fn peek(&self) -> (r: Option<&T>)
        requires
            self.wf(),
        ensures
            r is None <==> self@.len() == 0,
            r matches Some(v) ==> *v == self@[0],
    {
        if self.head == self.tail {
            return None;
        }
        Some(&self.buf[self.head])
    }

    /// Removes and returns the item at the front, if any.
    pub fn pop(&mut self) -> (r: Option<T>)
        requires
            old(self).wf(),
        ensures
            final(self).wf(),
            r is None <==> old(self)@.len() == 0,
            r is None ==> final(self)@ == old(self)@,
            r matches Some(v) ==> v == old(self)@[0] && final(self)@ == old(self)@.drop_first(),
    {
        if self.head == self.tail {
            return None;
        }
        let ghost before = self@;
        let val = self.buf[self.head];
        proof {
            lemma_ring_step(self.head, N);
        }
        self.head = (self.head + 1) % N;
        assert(self@ =~= before.drop_first());
        Some(val)
    }
}

} // verus!
