//! Stream adapters over [`Read`] and [`Write`]: each stream read copies
//! from the current chunk, each stream write fills the room left.
use crate::read::Read;
use crate::write::Write;
use vstd::prelude::*;

verus! {

/// A [`Read`] used as a byte stream.
#[derive(Debug, Clone)]
pub struct Reader<T>(T);

impl<T> Reader<T> {
    /// The cursor inside.
    pub closed spec fn inner(&self) -> T {
        self.0
    }

    /// Wraps `t`.
    pub fn new(t: T) -> (r: Self)
        ensures
            r.inner() == t,
    {
        Reader(t)
    }

    /// The cursor inside.
    pub fn get(&self) -> (r: &T)
        ensures
            *r == self.inner(),
    {
        &self.0
    }

    /// Takes the cursor out.
    pub fn into_inner(self) -> (r: T)
        ensures
            r == self.inner(),
    {
        self.0
    }
}

impl<T: Read> Reader<T> {
    /// Copies as many bytes of the current chunk as `out` holds into its
    /// front, consumes them, and tells how many there were.
    pub fn read_into(&mut self, out: &mut [u8]) -> (r: usize)
        ensures
            r <= old(out)@.len(),
            r <= old(self).inner().contents().len(),
            final(out)@.len() == old(out)@.len(),
            final(out)@.take(r as int) == old(self).inner().contents().take(r as int),
            final(out)@.skip(r as int) == old(out)@.skip(r as int),
            final(self).inner().contents() == old(self).inner().contents().skip(r as int),
            old(out)@.len() > 0 && old(self).inner().contents().len() > 0 ==> r > 0,
    {
        let chunk = self.0.chunk();
        let n = if chunk.len() < out.len() {
            chunk.len()
        } else {
            out.len()
        };
        let mut i: usize = 0;
        while i < n
            invariant
                n <= chunk@.len(),
                n <= out@.len(),
                i <= n,
                out@.len() == old(out)@.len(),
                forall|j: int| 0 <= j < i ==> out@[j] == chunk@[j],
                forall|j: int| n <= j < out@.len() ==> out@[j] == old(out)@[j],
            decreases n - i,
        {
            out[i] = chunk[i];
            i = i + 1;
        }
        let _ = self.0.advance(n);
        proof {
            assert(out@.take(n as int) =~= chunk@.take(n as int));
            assert(out@.skip(n as int) =~= old(out)@.skip(n as int));
        }
        n
    }
}

/// A [`Write`] used as a byte stream.
#[derive(Debug, Clone)]
pub struct Writer<T>(T);

impl<T> Writer<T> {
    /// The destination inside.
    pub closed spec fn inner(&self) -> T {
        self.0
    }

    /// Wraps `t`.
    pub fn new(t: T) -> (r: Self)
        ensures
            r.inner() == t,
    {
        Writer(t)
    }

    /// The destination inside.
    pub fn get(&self) -> (r: &T)
        ensures
            *r == self.inner(),
    {
        &self.0
    }

    /// Takes the destination out.
    pub fn into_inner(self) -> (r: T)
        ensures
            r == self.inner(),
    {
        self.0
    }
}

impl<T: Write> Writer<T> {
    /// Writes as much of the front of `src` as there is room for, and tells
    /// how many bytes that was.
    pub fn write_some(&mut self, src: &[u8]) -> (r: usize)
        ensures
            r == vstd::math::min(old(self).inner().room() as int, src@.len() as int),
            final(self).inner().written() == old(self).inner().written() + src@.take(r as int),
            final(self).inner().room() == old(self).inner().room() - r,
    {
        let room = self.0.rem_mut();
        let n = if room < src.len() {
            room
        } else {
            src.len()
        };
        let head = vstd::slice::slice_subrange(src, 0, n);
        let _ = self.0.write_from(head);
        proof {
            assert(head@ =~= src@.take(n as int));
        }
        n
    }
}

} // verus!
