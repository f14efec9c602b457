use vstd::prelude::*;

verus! {

broadcast use vstd::array::group_array_axioms;

/// Returned by [`BoundedSeq::add`] when the sequence is full.
pub struct SeqErr;

/// An ordered collection of at most `N` values, kept in a fixed buffer.
#[derive(Copy, Clone)]
pub struct BoundedSeq<T, const N: usize> where T: Default + Copy {
    count: usize,
    values: [T; N],
}

impl<T, const N: usize> BoundedSeq<T, N> where T: Default + Copy {
    /// The values added since the last reset, oldest first.
    pub closed spec fn view(&self) -> Seq<T> {
        self.values@.take(self.count as int)
    }

    /// Internal consistency: the count never exceeds the buffer.
    pub closed spec fn wf(&self) -> bool {
        self.count <= N
    }

    /// A well formed sequence holds at most `N` values.
    pub proof fn lemma_len_bound(&self)
        requires
            self.wf(),
        ensures
            self@.len() <= N,
    {
    }

    /// Creates an empty sequence.
    #[must_use]
    pub fn new() -> (s: Self)
        ensures
            s.wf(),
            s@ == Seq::<T>::empty(),
    {
        Self { count: 0, values: [T::default(); N] }
    }

    /// Number of values held.
    pub fn count(&self) -> (n: usize)
        requires
            self.wf(),
        ensures
            n == self@.len(),
    {
        self.count
    }

    /// Appends `val`. Fails, leaving the sequence unchanged, when it already
    /// holds `N` values.
    pub fn add(&mut self, val: T) -> (r: Result<(), SeqErr>)
        requires
            old(self).wf(),
        ensures
            final(self).wf(),
            r is Err <==> old(self)@.len() == N,
            r is Ok ==> final(self)@ == old(self)@.push(val),
            r is Err ==> final(self)@ == old(self)@,
    {
        if self.count >= N {
            return Err(SeqErr);
        }
        let ghost before = self@;
        self.values[self.count] = val;
        self.count += 1;
        assert(self@ =~= before.push(val));
        Ok(())
    }

    /// Forgets every value.
    pub fn reset(&mut self)
        requires
            old(self).wf(),
        ensures
            final(self).wf(),
            final(self)@ == Seq::<T>::empty(),
    {
        self.count = 0;
    }

    /// The values in order, as a vector.
    pub fn to_vec(&self) -> (v: Vec<T>)
        requires
            self.wf(),
        ensures
            v@ == self@,
    {
        let mut v: Vec<T> = Vec::new();
        let mut i: usize = 0;
        while i < self.count
            invariant
                self.wf(),
                i <= self.count,
                v@ == self@.take(i as int),
            decreases self.count - i,
        {
            v.push(self.values[i]);
            i += 1;
            assert(v@ =~= self@.take(i as int));
        }
        assert(self@.take(self.count as int) =~= self@);
        v
    }

    /// An iterator over the values, borrowing the sequence.
    pub fn iter(&self) -> (it: SeqIterator<'_, T, N>)
        requires
            self.wf(),
        ensures
            it.wf(),
            it.remaining() == self@,
    {
        SeqIterator { index: 0, scan: self }
    }

    /// An iterator over the values, owning a copy of the sequence.
    pub fn into_iter(self) -> (it: SeqToIterator<T, N>)
        requires
            self.wf(),
        ensures
            it.wf(),
            it.remaining() == self@,
    {
        SeqToIterator { index: 0, scan: self }
    }
}

impl<T, const N: usize> Default for BoundedSeq<T, N> where T: Default + Copy {
    fn default() -> (s: Self)
        ensures
            s.wf(),
            s@ == Seq::<T>::empty(),
    {
        BoundedSeq::new()
    }
}

/// Walks the values of a borrowed [`BoundedSeq`].
pub struct SeqIterator<'a, T, const N: usize> where T: Default + Copy {
    index: usize,
    scan: &'a BoundedSeq<T, N>,
}

impl<'a, T, const N: usize> SeqIterator<'a, T, N> where T: Default + Copy {
    /// Internal consistency.
    pub closed spec fn wf(&self) -> bool {
        self.scan.wf() && self.index <= self.scan.count
    }

    /// The values that later calls of `next` hand out, in order.
    pub closed spec fn remaining(&self) -> Seq<T> {
        self.scan@.skip(self.index as int)
    }

    /// The next value, or `None` once every value was handed out.
    pub fn next(&mut self) -> (r: Option<T>)
        requires
            old(self).wf(),
        ensures
            final(self).wf(),
            r is None <==> old(self).remaining().len() == 0,
            r is None ==> final(self).remaining() == old(self).remaining(),
            r matches Some(v) ==> v == old(self).remaining()[0]
                && final(self).remaining() == old(self).remaining().drop_first(),
    {
        if self.index >= self.scan.count {
            return None;
        }
        let ghost before = self.remaining();
        self.index += 1;
        assert(self.remaining() =~= before.drop_first());
        Some(self.scan.values[self.index - 1])
    }
}

/// Walks the values of an owned [`BoundedSeq`].
pub struct SeqToIterator<T, const N: usize> where T: Default + Copy {
    index: usize,
    scan: BoundedSeq<T, N>,
}

impl<T, const N: usize> SeqToIterator<T, N> where T: Default + Copy {
    /// Internal consistency.
    pub closed spec fn wf(&self) -> bool {
        self.scan.wf() && self.index <= self.scan.count
    }

    /// The values that later calls of `next` hand out, in order.
    pub closed spec fn remaining(&self) -> Seq<T> {
        self.scan@.skip(self.index as int)
    }

    /// The next value, or `None` once every value was handed out.
    pub fn next(&mut self) -> (r: Option<T>)
        requires
            old(self).wf(),
        ensures
            final(self).wf(),
            r is None <==> old(self).remaining().len() == 0,
            r is None ==> final(self).remaining() == old(self).remaining(),
            r matches Some(v) ==> v == old(self).remaining()[0]
                && final(self).remaining() == old(self).remaining().drop_first(),
    {
        if self.index >= self.scan.count {
            return None;
        }
        let ghost before = self.remaining();
        self.index += 1;
        assert(self.remaining() =~= before.drop_first());
        Some(self.scan.values[self.index - 1])
    }
}

} // verus!
