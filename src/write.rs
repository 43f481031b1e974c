use crate::error::{BufTooShort, BufTooShortOr};
use crate::shared::{bytes_mut_extend, bytes_mut_len, bytes_mut_view};
use bytes::BytesMut;
use vstd::prelude::*;

verus! {

/// A destination that bytes are written into, at its end.
pub trait Write {
    /// The bytes written so far.
    spec fn written(&self) -> Seq<u8>;

    /// How many more bytes fit.
    spec fn room(&self) -> nat;

    /// How many more bytes fit.
    fn rem_mut(&self) -> (r: usize)
        ensures
            r == self.room(),
    ;

    /// Writes all of `src`, or fails, writing nothing, if it does not fit.
    fn write_from(&mut self, src: &[u8]) -> (r: Result<(), BufTooShort>)
        ensures
            r is Ok <==> src@.len() <= old(self).room(),
            r is Ok ==> final(self).written() == old(self).written() + src@ && final(self).room()
                == old(self).room() - src@.len(),
            r is Err ==> final(self).written() == old(self).written() && final(self).room()
                == old(self).room(),
    ;

}

/// The room left in a vector: no allocation holds more than `isize::MAX`
/// bytes.
pub open spec fn vec_room(len: nat) -> nat {
    if len <= isize::MAX {
        (isize::MAX - len) as nat
    } else {
        0
    }
}

impl Write for Vec<u8> {
    open spec fn written(&self) -> Seq<u8> {
        self@
    }

    open spec fn room(&self) -> nat {
        vec_room(self@.len())
    }

    fn rem_mut(&self) -> (r: usize) {
        if self.len() <= isize::MAX as usize {
            isize::MAX as usize - self.len()
        } else {
            0
        }
    }

    fn write_from(&mut self, src: &[u8]) -> (r: Result<(), BufTooShort>) {
        if src.len() > self.rem_mut() {
            return Err(BufTooShort);
        }
        let ghost start = self@;
        let mut i: usize = 0;
        while i < src.len()
            invariant
                i <= src@.len(),
                src@.len() == 0 || start.len() + src@.len() <= isize::MAX,
                self@ == start + src@.take(i as int),
            decreases src@.len() - i,
        {
            self.push(src[i]);
            assert(self@ =~= start + src@.take(i + 1));
            i = i + 1;
        }
        assert(src@.take(src@.len() as int) =~= src@);
        Ok(())
    }
}

/// Typed writing on every [`Write`].
pub trait WriteValue: Write + Sized {
    /// Writes the encoding of `value`.
    fn write<T: Encode>(&mut self, value: &T) -> (r: Result<(), BufTooShortOr<T::Error>>) 
        ensures
            r is Ok <==> value.encoding().len() <= old(self).room(),
            r is Ok ==> final(self).written() == old(self).written() + value.encoding()
                && final(self).room() == old(self).room() - value.encoding().len(),
            r is Err ==> r matches Err(BufTooShortOr::TooShort),
    {
        value.encode(self)
    }
}

impl<W: Write> WriteValue for W {

}

impl Write for BytesMut {
    open spec fn written(&self) -> Seq<u8> {
        bytes_mut_view(*self)
    }

    open spec fn room(&self) -> nat {
        vec_room(bytes_mut_view(*self).len())
    }

    fn rem_mut(&self) -> (r: usize) {
        let len = bytes_mut_len(self);
        if len <= isize::MAX as usize {
            isize::MAX as usize - len
        } else {
            0
        }
    }

    fn write_from(&mut self, src: &[u8]) -> (r: Result<(), BufTooShort>) {
        let len = bytes_mut_len(self);
        let room = if len <= isize::MAX as usize {
            isize::MAX as usize - len
        } else {
            0
        };
        if src.len() > room {
            return Err(BufTooShort);
        }
        bytes_mut_extend(self, src);
        Ok(())
    }
}

/// A value that can be written as bytes.
///
/// The bytes depend on the value alone; writing fails only for want of room.
pub trait Encode {
    /// The value's own error, besides [`BufTooShortOr::TooShort`].
    type Error;

    /// The bytes that encode this value.
    spec fn encoding(&self) -> Seq<u8>;

    /// Writes the encoding of this value into `dst`.
    ///
    /// On failure `dst` may hold part of the encoding.
    fn encode<W: Write>(&self, dst: &mut W) -> (r: Result<(), BufTooShortOr<Self::Error>>)
        ensures
            r is Ok <==> self.encoding().len() <= old(dst).room(),
            r is Ok ==> final(dst).written() == old(dst).written() + self.encoding()
                && final(dst).room() == old(dst).room() - self.encoding().len(),
            r is Err ==> r matches Err(BufTooShortOr::TooShort),
    ;
}

/// A value whose encoded length can be told without encoding it.
pub trait EncodeLen: Encode {
    /// The number of bytes that [`Encode::encode`] writes for this value.
    fn encode_len(&self) -> (r: usize)
        ensures
            r == self.encoding().len(),
    ;
}

/// Bounds, the same for every value of the type, on how long an encoding
/// can be.
pub trait FixedEncodeLenHint: EncodeLen + Sized {
    /// Inclusive lower bound of [`EncodeLen::encode_len`].
    fn min_encode_len() -> (r: usize)
        ensures
            forall|v: Self| r <= #[trigger] v.encoding().len(),
    ;

    /// Inclusive upper bound of [`EncodeLen::encode_len`].
    fn max_encode_len() -> (r: usize)
        ensures
            forall|v: Self| #[trigger] v.encoding().len() <= r,
    ;
}

/// The length of an encoding, the same for every value of the type.
pub trait FixedEncodeLen: FixedEncodeLenHint {
    /// The number of bytes that encoding any value of this type takes.
    fn fixed_encode_len() -> (r: usize)
        ensures
            forall|v: Self| #[trigger] v.encoding().len() == r,
    ;
}

} // verus!
