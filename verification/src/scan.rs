use vstd::prelude::*;
use crate::seq::{BoundedSeq, SeqIterator, SeqToIterator};

verus! {

/// Largest number of keys one scan holds.
pub const MAX_SCAN_SIZE: usize = 12;

/// Returned by [`Scan::add_key`] when the scan is full.
pub struct ScanErr;

/// The keys, by keyboard usage code, held during one scan of the matrix.
#[derive(Copy, Clone)]
pub struct Scan {
    keys: BoundedSeq<u8, MAX_SCAN_SIZE>,
}

impl Scan {
    /// The keys added since the last reset, oldest first.
    pub closed spec fn view(&self) -> Seq<u8> {
        self.keys@
    }

    /// Internal consistency.
    pub closed spec fn wf(&self) -> bool {
        self.keys.wf()
    }

    /// An empty scan.
    #[must_use]
    pub fn new() -> (s: Self)
        ensures
            s.wf(),
            s@ == Seq::<u8>::empty(),
    {
        Self { keys: BoundedSeq::new() }
    }

    /// Number of keys held.
    pub fn count(&self) -> (n: usize)
        requires
            self.wf(),
        ensures
            n == self@.len(),
    {
        self.keys.count()
    }

    /// Adds `key`. Fails, leaving the scan unchanged, when it already holds
    /// [`MAX_SCAN_SIZE`] keys.
    pub fn add_key(&mut self, key: u8) -> (r: Result<(), ScanErr>)
        requires
            old(self).wf(),
        ensures
            final(self).wf(),
            r is Err <==> old(self)@.len() == MAX_SCAN_SIZE,
            r is Ok ==> final(self)@ == old(self)@.push(key),
            r is Err ==> final(self)@ == old(self)@,
    {
        match self.keys.add(key) {
            Ok(()) => Ok(()),
            Err(_) => Err(ScanErr),
        }
    }

    /// Forgets every key.
    pub fn reset(&mut self)
        requires
            old(self).wf(),
        ensures
            final(self).wf(),
            final(self)@ == Seq::<u8>::empty(),
    {
        self.keys.reset();
    }

    /// An iterator over the keys, borrowing the scan.
    pub fn iter(&self) -> (it: ScanIterator<'_>)
        requires
            self.wf(),
        ensures
            it.wf(),
            it.remaining() == self@,
    {
        ScanIterator { inner: self.keys.iter() }
    }

    /// An iterator over the keys, owning a copy of the scan.
    pub fn into_iter(self) -> (it: ScanToIterator)
        requires
            self.wf(),
        ensures
            it.wf(),
            it.remaining() == self@,
    {
        ScanToIterator { inner: self.keys.into_iter() }
    }
}

impl Default for Scan {
    fn default() -> (s: Self)
        ensures
            s.wf(),
            s@ == Seq::<u8>::empty(),
    {
        Scan::new()
    }
}

/// Walks the keys of a borrowed [`Scan`].
pub struct ScanIterator<'a> {
    inner: SeqIterator<'a, u8, MAX_SCAN_SIZE>,
}

impl<'a> ScanIterator<'a> {
    /// Internal consistency.
    pub closed spec fn wf(&self) -> bool {
        self.inner.wf()
    }

    /// The keys that later calls of `next` hand out, in order.
    pub closed spec fn remaining(&self) -> Seq<u8> {
        self.inner.remaining()
    }

    /// The next key, or `None` once every key was handed out.
    pub fn next(&mut self) -> (r: Option<u8>)
        requires
            old(self).wf(),
        ensures
            final(self).wf(),
            r is None <==> old(self).remaining().len() == 0,
            r is None ==> final(self).remaining() == old(self).remaining(),
            r matches Some(v) ==> v == old(self).remaining()[0]
                && final(self).remaining() == old(self).remaining().drop_first(),
    {
        self.inner.next()
    }
}

/// Walks the keys of an owned [`Scan`].
pub struct ScanToIterator {
    inner: SeqToIterator<u8, MAX_SCAN_SIZE>,
}

impl ScanToIterator {
    /// Internal consistency.
    pub closed spec fn wf(&self) -> bool {
        self.inner.wf()
    }

    /// The keys that later calls of `next` hand out, in order.
    pub closed spec fn remaining(&self) -> Seq<u8> {
        self.inner.remaining()
    }

    /// The next key, or `None` once every key was handed out.
    pub fn next(&mut self) -> (r: Option<u8>)
        requires
            old(self).wf(),
        ensures
            final(self).wf(),
            r is None <==> old(self).remaining().len() == 0,
            r is None ==> final(self).remaining() == old(self).remaining(),
            r matches Some(v) ==> v == old(self).remaining()[0]
                && final(self).remaining() == old(self).remaining().drop_first(),
    {
        self.inner.next()
    }
}

} // verus!
