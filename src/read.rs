use crate::error::{BufTooShort, BufTooShortOr};
use crate::write::Encode;
use crate::shared::{bytes_as_slice, bytes_from_vec, bytes_len, bytes_split_to, bytes_view};
use bytes::Bytes;
use vstd::prelude::*;

verus! {

/// A cursor that bytes are read from, front first.
///
/// The bytes left may lie in several fragments; [`Read::chunk`] shows the
/// first of them.
pub trait Read {
    /// The bytes left to read, in order.
    spec fn contents(&self) -> Seq<u8>;

    /// How many bytes are left to read.
    fn rem(&self) -> (r: usize)
        ensures
            r == self.contents().len(),
    ;

    /// The next contiguous run of bytes: a prefix of what is left, not empty
    /// unless nothing is left.
    fn chunk(&self) -> (r: &[u8])
        ensures
            r@.len() <= self.contents().len(),
            r@ == self.contents().take(r@.len() as int),
            self.contents().len() > 0 ==> r@.len() > 0,
    ;

    /// Consumes the next `n` bytes, or fails, consuming nothing, if fewer
    /// are left.
    fn advance(&mut self, n: usize) -> (r: Result<(), BufTooShort>)
        ensures
            r is Ok <==> n <= old(self).contents().len(),
            r is Ok ==> final(self).contents() == old(self).contents().skip(n as int),
            r is Err ==> final(self).contents() == old(self).contents(),
    ;

    /// Consumes the next `n` bytes and hands them back as a buffer of their
    /// own, or fails, consuming nothing, if fewer are left.
    fn read_next(&mut self, n: usize) -> (r: Result<Bytes, BufTooShort>)
        ensures
            r is Ok <==> n <= old(self).contents().len(),
            r matches Ok(b) ==> bytes_view(b) == old(self).contents().take(n as int)
                && final(self).contents() == old(self).contents().skip(n as int),
            r is Err ==> final(self).contents() == old(self).contents(),
    {
        if self.rem() < n {
            return Err(BufTooShort);
        }
        let ghost start = self.contents();
        let mut out: Vec<u8> = Vec::new();
        while out.len() < n
            invariant
                out@.len() <= n <= start.len(),
                self.contents() == start.skip(out@.len() as int),
                out@ == start.take(out@.len() as int),
            decreases n - out@.len(),
        {
            let chunk = self.chunk();
            let to_copy = if chunk.len() < n - out.len() {
                chunk.len()
            } else {
                n - out.len()
            };
            let i = out.len();
            let mut j: usize = 0;
            while j < to_copy
                invariant
                    i <= n <= start.len(),
                    j <= to_copy <= chunk@.len(),
                    to_copy <= n - i,
                    chunk@.len() <= start.len() - i,
                    chunk@ == start.skip(i as int).take(chunk@.len() as int),
                    out@.len() == i + j,
                    out@ == start.take(i + j),
                decreases to_copy - j,
            {
                out.push(chunk[j]);
                assert(out@ =~= start.take(i + j + 1));
                j = j + 1;
            }
            let _ = self.advance(to_copy);
            assert(self.contents() =~= start.skip(i + to_copy));
        }
        Ok(bytes_from_vec(out))
    }

    /// Same as [`Read::advance`].
    fn skip(&mut self, n: usize) -> (r: Result<(), BufTooShort>)
        ensures
            r is Ok <==> n <= old(self).contents().len(),
            r is Ok ==> final(self).contents() == old(self).contents().skip(n as int),
            r is Err ==> final(self).contents() == old(self).contents(),
    {
        self.advance(n)
    }

    /// Consumes the next `N` bytes and copies them out, or fails, consuming
    /// nothing, if fewer are left.
    ///
    /// Where the first chunk holds `N` bytes they are copied at once;
    /// otherwise they are gathered chunk by chunk.
    fn read_exact<const N: usize>(&mut self) -> (r: Result<[u8; N], BufTooShort>)
        ensures
            r is Ok <==> N <= old(self).contents().len(),
            r matches Ok(a) ==> a@ == old(self).contents().take(N as int)
                && final(self).contents() == old(self).contents().skip(N as int),
            r is Err ==> final(self).contents() == old(self).contents(),
    {
        let mut buf = [0u8; N];
        let chunk = self.chunk();
        if chunk.len() >= N {
            let mut j: usize = 0;
            while j < N
                invariant
                    j <= N <= chunk@.len(),
                    buf@.len() == N,
                    forall|k: int| 0 <= k < j ==> buf@[k] == chunk@[k],
                decreases N - j,
            {
                buf[j] = chunk[j];
                j = j + 1;
            }
            let ghost before = self.contents();
            let _ = self.advance(N);
            assert(buf@ =~= before.take(N as int));
            return Ok(buf);
        }
        if self.rem() < N {
            return Err(BufTooShort);
        }
        let ghost start = self.contents();
        let mut i: usize = 0;
        while i < N
            invariant
                i <= N <= start.len(),
                buf@.len() == N,
                self.contents() == start.skip(i as int),
                forall|k: int| 0 <= k < i ==> buf@[k] == start[k],
            decreases N - i,
        {
            let chunk = self.chunk();
            let to_copy = if chunk.len() < N - i {
                chunk.len()
            } else {
                N - i
            };
            let mut j: usize = 0;
            while j < to_copy
                invariant
                    i <= N <= start.len(),
                    j <= to_copy <= chunk@.len(),
                    to_copy <= N - i,
                    chunk@.len() <= start.len() - i,
                    chunk@ == start.skip(i as int).take(chunk@.len() as int),
                    buf@.len() == N,
                    forall|k: int| 0 <= k < i + j ==> buf@[k] == start[k],
                decreases to_copy - j,
            {
                buf[i + j] = chunk[j];
                j = j + 1;
            }
            let _ = self.advance(to_copy);
            assert(self.contents() =~= start.skip(i + to_copy));
            i = i + to_copy;
        }
        assert(buf@ =~= start.take(N as int));
        Ok(buf)
    }
}

impl<'a> Read for &'a [u8] {
    open spec fn contents(&self) -> Seq<u8> {
        self@
    }

    fn rem(&self) -> (r: usize) {
        self.len()
    }

    fn chunk(&self) -> (r: &[u8]) {
        assert(self@ =~= self@.take(self@.len() as int));
        *self
    }

    fn advance(&mut self, n: usize) -> (r: Result<(), BufTooShort>) {
        if n <= self.len() {
            *self = vstd::slice::slice_subrange(*self, n, self.len());
            assert(self@ =~= old(self)@.skip(n as int));
            Ok(())
        } else {
            Err(BufTooShort)
        }
    }

    fn read_next(&mut self, n: usize) -> (r: Result<Bytes, BufTooShort>) {
        if n <= self.len() {
            let head = vstd::slice::slice_to_vec(vstd::slice::slice_subrange(*self, 0, n));
            *self = vstd::slice::slice_subrange(*self, n, self.len());
            assert(self@ =~= old(self)@.skip(n as int));
            Ok(bytes_from_vec(head))
        } else {
            Err(BufTooShort)
        }
    }
}

/// Typed reading on every [`Read`].
pub trait ReadValue: Read + Sized {
    /// Decodes the next value of type `T`.
    fn read<T: Decode>(&mut self) -> (r: Result<T, BufTooShortOr<T::Error>>)
        ensures
            T::decode_spec(old(self).contents()).1 <= old(self).contents().len(),
            r == T::decode_spec(old(self).contents()).0,
            final(self).contents() == old(self).contents().skip(
                T::decode_spec(old(self).contents()).1 as int,
            ),
    {
        T::decode(self)
    }
}

impl<R: Read> ReadValue for R {

}

/// A value that can be read from bytes.
pub trait Decode: Sized {
    /// The value's own error, besides [`BufTooShortOr::TooShort`].
    type Error;

    /// What decoding from the front of `src` gives, and how many bytes of
    /// `src` it consumes, whether it succeeds or not.
    spec fn decode_spec(src: Seq<u8>) -> (Result<Self, BufTooShortOr<Self::Error>>, nat);

    /// Decodes a value from the front of `src`.
    ///
    /// A failed decode leaves `src` after the bytes it consumed.
    fn decode<R: Read>(src: &mut R) -> (r: Result<Self, BufTooShortOr<Self::Error>>)
        ensures
            Self::decode_spec(old(src).contents()).1 <= old(src).contents().len(),
            r == Self::decode_spec(old(src).contents()).0,
            final(src).contents() == old(src).contents().skip(
                Self::decode_spec(old(src).contents()).1 as int,
            ),
    ;
}

/// A type whose decoding reads back what its encoding wrote.
pub trait RoundTrip: Encode + Decode {
    /// Decoding the encoding of `v`, with any bytes after it, gives `v` back
    /// and consumes exactly the encoding.
    proof fn lemma_round_trip(v: Self, rest: Seq<u8>)
        ensures
            Self::decode_spec(v.encoding() + rest) == (
            Ok::<Self, BufTooShortOr<<Self as Decode>::Error>>(v),
            v.encoding().len(),
            ),
    ;
}

/// Two cursors read one after the other, as one: the bytes of `first`, then
/// those of `second`.
///
/// The bytes left are split where the two meet, so a read that spans the
/// seam cannot be served from one chunk.
pub struct Chain<A, B> {
    first: A,
    second: B,
    len: usize,
}

impl<A: Read, B: Read> Chain<A, B> {
    /// Whether the cached total agrees with the two parts; every chain that
    /// [`Chain::new`] makes does, and reading keeps it so.
    closed spec fn agrees(&self) -> bool {
        self.first.contents().len() + self.second.contents().len() == self.len
    }

    /// Chains `first` and `second`.
    pub fn new(first: A, second: B) -> (r: Self)
        requires
            first.contents().len() + second.contents().len() <= usize::MAX,
        ensures
            r.contents() == first.contents() + second.contents(),
    {
        let len = first.rem() + second.rem();
        Chain { first, second, len }
    }

}

impl<A: Read, B: Read> Read for Chain<A, B> {
    closed spec fn contents(&self) -> Seq<u8> {
        if self.agrees() {
            self.first.contents() + self.second.contents()
        } else {
            Seq::empty()
        }
    }

    fn rem(&self) -> (r: usize) {
        let a = self.first.rem();
        let b = self.second.rem();
        if a <= self.len && self.len - a == b {
            self.len
        } else {
            0
        }
    }

    fn chunk(&self) -> (r: &[u8]) {
        let a = self.first.rem();
        let b = self.second.rem();
        if a <= self.len && self.len - a == b {
            if a > 0 {
                self.first.chunk()
            } else {
                let r = self.second.chunk();
                assert(self.contents() =~= self.second.contents());
                r
            }
        } else {
            let r: &[u8] = &[];
            assert(r@ =~= self.contents().take(0));
            r
        }
    }

    fn advance(&mut self, n: usize) -> (r: Result<(), BufTooShort>) {
        let a = self.first.rem();
        let b = self.second.rem();
        if !(a <= self.len && self.len - a == b) {
            return if n == 0 {
                Ok(())
            } else {
                Err(BufTooShort)
            };
        }
        if n <= a {
            let _ = self.first.advance(n);
            self.len = self.len - n;
            assert(self.contents() =~= old(self).contents().skip(n as int));
            Ok(())
        } else if n - a <= b {
            let _ = self.first.advance(a);
            let _ = self.second.advance(n - a);
            self.len = self.len - n;
            assert(self.contents() =~= old(self).contents().skip(n as int));
            Ok(())
        } else {
            Err(BufTooShort)
        }
    }
}

impl Read for Bytes {
    open spec fn contents(&self) -> Seq<u8> {
        bytes_view(*self)
    }

    fn rem(&self) -> (r: usize) {
        bytes_len(self)
    }

    fn chunk(&self) -> (r: &[u8]) {
        let r = bytes_as_slice(self);
        assert(r@ =~= self.contents().take(r@.len() as int));
        r
    }

    fn advance(&mut self, n: usize) -> (r: Result<(), BufTooShort>) {
        if n <= bytes_len(self) {
            let _ = bytes_split_to(self, n);
            Ok(())
        } else {
            Err(BufTooShort)
        }
    }

    fn read_next(&mut self, n: usize) -> (r: Result<Bytes, BufTooShort>) {
        if n <= bytes_len(self) {
            Ok(bytes_split_to(self, n))
        } else {
            Err(BufTooShort)
        }
    }
}

} // verus!
