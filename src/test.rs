//! Checks for [`Encode`] and [`Decode`] implementations, to call from unit
//! tests.
use crate::error::BufTooShortOr;
use crate::read::{Decode, ReadValue, RoundTrip};
use crate::write::{Encode, EncodeLen, FixedEncodeLenHint, WriteValue};
use vstd::prelude::*;

verus! {

/// Whether the encoded length of `value` lies within the bounds that its
/// type declares, which every verified implementation keeps.
pub fn encode_len_hint<T: FixedEncodeLenHint>(value: &T) -> (r: bool)
    ensures
        r,
{
    let encode_len = value.encode_len();
    T::min_encode_len() <= encode_len && encode_len <= T::max_encode_len()
}

/// Encodes `value` into a fresh buffer and decodes it back; hands back the
/// decoded value, the number of bytes written, and the number of bytes left
/// over after decoding.
///
/// The buffer holds exactly [`EncodeLen::encode_len`] bytes, and decoding
/// gives `value` back with nothing left over.
pub fn round_trip<T: RoundTrip + EncodeLen>(value: &T) -> (r: (
    Result<T, BufTooShortOr<<T as Decode>::Error>>,
    usize,
    usize,
))
    requires
        value.encoding().len() <= isize::MAX,
    ensures
        r.0 == Ok::<T, BufTooShortOr<<T as Decode>::Error>>(*value),
        r.1 == value.encoding().len(),
        r.2 == 0,
{
    let encode_len = value.encode_len();
    let mut buf: Vec<u8> = Vec::with_capacity(encode_len);
    let _ = buf.write(value);
    let written = buf.len();
    let mut src: &[u8] = buf.as_slice();
    proof {
        assert(Seq::<u8>::empty() + value.encoding() =~= value.encoding());
        assert(value.encoding() + Seq::<u8>::empty() =~= value.encoding());
        T::lemma_round_trip(*value, Seq::empty());
    }
    let decoded = src.read::<T>();
    (decoded, written, src.len())
}

/// [`encode_len_hint`] and [`round_trip`] together.
pub fn hint_round_trip<T: RoundTrip + FixedEncodeLenHint>(value: &T) -> (r: (
    bool,
    Result<T, BufTooShortOr<<T as Decode>::Error>>,
    usize,
    usize,
))
    requires
        value.encoding().len() <= isize::MAX,
    ensures
        r.0,
        r.1 == Ok::<T, BufTooShortOr<<T as Decode>::Error>>(*value),
        r.2 == value.encoding().len(),
        r.3 == 0,
{
    let hint = encode_len_hint(value);
    let (decoded, written, left) = round_trip(value);
    (hint, decoded, written, left)
}

} // verus!
