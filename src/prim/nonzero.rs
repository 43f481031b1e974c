//! Integers that are never zero, and their encodings: those of the plain
//! integer, where a zero reads as invalid, or, wrapped in an `Option`, as
//! `None`.

use super::{invalid_value, lemma_be_bytes_len, InvalidValue};
use crate::error::BufTooShortOr;
use crate::read::{Decode, Read};
use crate::write::{Encode, EncodeLen, FixedEncodeLen, FixedEncodeLenHint, Write};
use core::convert::Infallible;
use vstd::prelude::*;

verus! {

/// A `u8` that is not zero.
#[derive(Debug, Clone, Copy, PartialEq, Eq, PartialOrd, Ord, Hash)]
pub struct NonZeroU8(u8);

impl NonZeroU8 {
    #[verifier::type_invariant]
    spec fn not_zero(self) -> bool {
        self.0 != 0
    }

    /// The value held.
    pub closed spec fn value(self) -> u8 {
        self.0
    }

    /// The non-zero integer that holds `v`.
    pub closed spec fn holding(v: u8) -> Self {
        NonZeroU8(v)
    }

    /// `v` as a non-zero integer, or `None` if it is zero.
    pub fn new(v: u8) -> (r: Option<Self>)
        ensures
            r is Some <==> v != 0,
            r matches Some(n) ==> n == Self::holding(v) && n.value() == v,
    {
        if v == 0 {
            None
        } else {
            Some(NonZeroU8(v))
        }
    }

    /// The value held.
    pub fn get(self) -> (r: u8)
        ensures
            r == self.value(),
            r != 0,
    {
        proof {
            use_type_invariant(&self);
        }
        self.0
    }

    /// The smallest value.
    pub fn min_value() -> (r: Self)
        ensures
            r.value() == 1,
    {
        NonZeroU8(1)
    }

    /// The largest value.
    pub fn max_value() -> (r: Self)
        ensures
            r.value() == 0xff,
    {
        NonZeroU8(0xff)
    }
}

impl Encode for NonZeroU8 {
    type Error = Infallible;

    open spec fn encoding(&self) -> Seq<u8> {
        self.value().encoding()
    }

    fn encode<W: Write>(&self, dst: &mut W) -> (r: Result<(), BufTooShortOr<Infallible>>) {
        self.get().encode(dst)
    }
}

impl EncodeLen for NonZeroU8 {
    fn encode_len(&self) -> (r: usize) {
        self.get().encode_len()
    }
}

impl FixedEncodeLenHint for NonZeroU8 {
    fn min_encode_len() -> (r: usize) {
        Self::fixed_encode_len()
    }

    fn max_encode_len() -> (r: usize) {
        Self::fixed_encode_len()
    }
}

impl FixedEncodeLen for NonZeroU8 {
    fn fixed_encode_len() -> (r: usize) {
        let r = u8::fixed_encode_len();
        assert forall|v: NonZeroU8| #[trigger] v.encoding().len() == r by {
            assert(v.value().encoding().len() == r);
        }
        r
    }
}

impl Decode for NonZeroU8 {
    type Error = InvalidValue;

    /// A `u8`; zero is invalid.
    open spec fn decode_spec(src: Seq<u8>) -> (Result<NonZeroU8, BufTooShortOr<InvalidValue>>, nat) {
        match u8::decode_spec(src) {
            (Ok(v), n) => if v == 0 {
                (Err(BufTooShortOr::Or(invalid_value())), n)
            } else {
                (Ok(NonZeroU8::holding(v)), n)
            },
            (Err(_), n) => (Err(BufTooShortOr::TooShort), n),
        }
    }

    fn decode<R: Read>(src: &mut R) -> (r: Result<NonZeroU8, BufTooShortOr<InvalidValue>>) {
        match u8::decode(src) {
            Ok(v) => match NonZeroU8::new(v) {
                Some(n) => Ok(n),
                None => Err(BufTooShortOr::Or(InvalidValue(()))),
            },
            Err(_) => Err(BufTooShortOr::TooShort),
        }
    }
}

impl Encode for Option<NonZeroU8> {
    type Error = Infallible;

    /// The held value, or zero for `None`.
    open spec fn encoding(&self) -> Seq<u8> {
        match self {
            Some(n) => n.value().encoding(),
            None => 0u8.encoding(),
        }
    }

    fn encode<W: Write>(&self, dst: &mut W) -> (r: Result<(), BufTooShortOr<Infallible>>) {
        let v: u8 = match self {
            Some(n) => n.get(),
            None => 0,
        };
        v.encode(dst)
    }
}

impl EncodeLen for Option<NonZeroU8> {
    fn encode_len(&self) -> (r: usize) {
        proof {
            lemma_be_bytes_len(0, 1);
        }
        u8::fixed_encode_len()
    }
}

impl FixedEncodeLenHint for Option<NonZeroU8> {
    fn min_encode_len() -> (r: usize) {
        Self::fixed_encode_len()
    }

    fn max_encode_len() -> (r: usize) {
        Self::fixed_encode_len()
    }
}

impl FixedEncodeLen for Option<NonZeroU8> {
    fn fixed_encode_len() -> (r: usize) {
        let r = u8::fixed_encode_len();
        assert forall|v: Option<NonZeroU8>| #[trigger] v.encoding().len() == r by {
            match v {
                Some(n) => assert(n.value().encoding().len() == r),
                None => assert(0u8.encoding().len() == r),
            }
        }
        r
    }
}

impl Decode for Option<NonZeroU8> {
    type Error = Infallible;

    /// A `u8`; zero reads as `None`.
    open spec fn decode_spec(src: Seq<u8>) -> (Result<Option<NonZeroU8>, BufTooShortOr<Infallible>>, nat) {
        match u8::decode_spec(src) {
            (Ok(v), n) => if v == 0 {
                (Ok(None), n)
            } else {
                (Ok(Some(NonZeroU8::holding(v))), n)
            },
            (Err(e), n) => (Err(e), n),
        }
    }

    fn decode<R: Read>(src: &mut R) -> (r: Result<Option<NonZeroU8>, BufTooShortOr<Infallible>>) {
        match u8::decode(src) {
            Ok(v) => Ok(NonZeroU8::new(v)),
            Err(e) => Err(e),
        }
    }
}

/// A `u16` that is not zero.
#[derive(Debug, Clone, Copy, PartialEq, Eq, PartialOrd, Ord, Hash)]
pub struct NonZeroU16(u16);

impl NonZeroU16 {
    #[verifier::type_invariant]
    spec fn not_zero(self) -> bool {
        self.0 != 0
    }

    /// The value held.
    pub closed spec fn value(self) -> u16 {
        self.0
    }

    /// The non-zero integer that holds `v`.
    pub closed spec fn holding(v: u16) -> Self {
        NonZeroU16(v)
    }

    /// `v` as a non-zero integer, or `None` if it is zero.
    pub fn new(v: u16) -> (r: Option<Self>)
        ensures
            r is Some <==> v != 0,
            r matches Some(n) ==> n == Self::holding(v) && n.value() == v,
    {
        if v == 0 {
            None
        } else {
            Some(NonZeroU16(v))
        }
    }

    /// The value held.
    pub fn get(self) -> (r: u16)
        ensures
            r == self.value(),
            r != 0,
    {
        proof {
            use_type_invariant(&self);
        }
        self.0
    }

    /// The smallest value.
    pub fn min_value() -> (r: Self)
        ensures
            r.value() == 1,
    {
        NonZeroU16(1)
    }

    /// The largest value.
    pub fn max_value() -> (r: Self)
        ensures
            r.value() == 0xffff,
    {
        NonZeroU16(0xffff)
    }
}

impl Encode for NonZeroU16 {
    type Error = Infallible;

    open spec fn encoding(&self) -> Seq<u8> {
        self.value().encoding()
    }

    fn encode<W: Write>(&self, dst: &mut W) -> (r: Result<(), BufTooShortOr<Infallible>>) {
        self.get().encode(dst)
    }
}

impl EncodeLen for NonZeroU16 {
    fn encode_len(&self) -> (r: usize) {
        self.get().encode_len()
    }
}

impl FixedEncodeLenHint for NonZeroU16 {
    fn min_encode_len() -> (r: usize) {
        Self::fixed_encode_len()
    }

    fn max_encode_len() -> (r: usize) {
        Self::fixed_encode_len()
    }
}

impl FixedEncodeLen for NonZeroU16 {
    fn fixed_encode_len() -> (r: usize) {
        let r = u16::fixed_encode_len();
        assert forall|v: NonZeroU16| #[trigger] v.encoding().len() == r by {
            assert(v.value().encoding().len() == r);
        }
        r
    }
}

impl Decode for NonZeroU16 {
    type Error = InvalidValue;

    /// A `u16`; zero is invalid.
    open spec fn decode_spec(src: Seq<u8>) -> (Result<NonZeroU16, BufTooShortOr<InvalidValue>>, nat) {
        match u16::decode_spec(src) {
            (Ok(v), n) => if v == 0 {
                (Err(BufTooShortOr::Or(invalid_value())), n)
            } else {
                (Ok(NonZeroU16::holding(v)), n)
            },
            (Err(_), n) => (Err(BufTooShortOr::TooShort), n),
        }
    }

    fn decode<R: Read>(src: &mut R) -> (r: Result<NonZeroU16, BufTooShortOr<InvalidValue>>) {
        match u16::decode(src) {
            Ok(v) => match NonZeroU16::new(v) {
                Some(n) => Ok(n),
                None => Err(BufTooShortOr::Or(InvalidValue(()))),
            },
            Err(_) => Err(BufTooShortOr::TooShort),
        }
    }
}

impl Encode for Option<NonZeroU16> {
    type Error = Infallible;

    /// The held value, or zero for `None`.
    open spec fn encoding(&self) -> Seq<u8> {
        match self {
            Some(n) => n.value().encoding(),
            None => 0u16.encoding(),
        }
    }

    fn encode<W: Write>(&self, dst: &mut W) -> (r: Result<(), BufTooShortOr<Infallible>>) {
        let v: u16 = match self {
            Some(n) => n.get(),
            None => 0,
        };
        v.encode(dst)
    }
}

impl EncodeLen for Option<NonZeroU16> {
    fn encode_len(&self) -> (r: usize) {
        proof {
            lemma_be_bytes_len(0, 2);
        }
        u16::fixed_encode_len()
    }
}

impl FixedEncodeLenHint for Option<NonZeroU16> {
    fn min_encode_len() -> (r: usize) {
        Self::fixed_encode_len()
    }

    fn max_encode_len() -> (r: usize) {
        Self::fixed_encode_len()
    }
}

impl FixedEncodeLen for Option<NonZeroU16> {
    fn fixed_encode_len() -> (r: usize) {
        let r = u16::fixed_encode_len();
        assert forall|v: Option<NonZeroU16>| #[trigger] v.encoding().len() == r by {
            match v {
                Some(n) => assert(n.value().encoding().len() == r),
                None => assert(0u16.encoding().len() == r),
            }
        }
        r
    }
}

impl Decode for Option<NonZeroU16> {
    type Error = Infallible;

    /// A `u16`; zero reads as `None`.
    open spec fn decode_spec(src: Seq<u8>) -> (Result<Option<NonZeroU16>, BufTooShortOr<Infallible>>, nat) {
        match u16::decode_spec(src) {
            (Ok(v), n) => if v == 0 {
                (Ok(None), n)
            } else {
                (Ok(Some(NonZeroU16::holding(v))), n)
            },
            (Err(e), n) => (Err(e), n),
        }
    }

    fn decode<R: Read>(src: &mut R) -> (r: Result<Option<NonZeroU16>, BufTooShortOr<Infallible>>) {
        match u16::decode(src) {
            Ok(v) => Ok(NonZeroU16::new(v)),
            Err(e) => Err(e),
        }
    }
}

/// A `u32` that is not zero.
#[derive(Debug, Clone, Copy, PartialEq, Eq, PartialOrd, Ord, Hash)]
pub struct NonZeroU32(u32);

impl NonZeroU32 {
    #[verifier::type_invariant]
    spec fn not_zero(self) -> bool {
        self.0 != 0
    }

    /// The value held.
    pub closed spec fn value(self) -> u32 {
        self.0
    }

    /// The non-zero integer that holds `v`.
    pub closed spec fn holding(v: u32) -> Self {
        NonZeroU32(v)
    }

    /// `v` as a non-zero integer, or `None` if it is zero.
    pub fn new(v: u32) -> (r: Option<Self>)
        ensures
            r is Some <==> v != 0,
            r matches Some(n) ==> n == Self::holding(v) && n.value() == v,
    {
        if v == 0 {
            None
        } else {
            Some(NonZeroU32(v))
        }
    }

    /// The value held.
    pub fn get(self) -> (r: u32)
        ensures
            r == self.value(),
            r != 0,
    {
        proof {
            use_type_invariant(&self);
        }
        self.0
    }

    /// The smallest value.
    pub fn min_value() -> (r: Self)
        ensures
            r.value() == 1,
    {
        NonZeroU32(1)
    }

    /// The largest value.
    pub fn max_value() -> (r: Self)
        ensures
            r.value() == 0xffff_ffff,
    {
        NonZeroU32(0xffff_ffff)
    }
}

impl Encode for NonZeroU32 {
    type Error = Infallible;

    open spec fn encoding(&self) -> Seq<u8> {
        self.value().encoding()
    }

    fn encode<W: Write>(&self, dst: &mut W) -> (r: Result<(), BufTooShortOr<Infallible>>) {
        self.get().encode(dst)
    }
}

impl EncodeLen for NonZeroU32 {
    fn encode_len(&self) -> (r: usize) {
        self.get().encode_len()
    }
}

impl FixedEncodeLenHint for NonZeroU32 {
    fn min_encode_len() -> (r: usize) {
        Self::fixed_encode_len()
    }

    fn max_encode_len() -> (r: usize) {
        Self::fixed_encode_len()
    }
}

impl FixedEncodeLen for NonZeroU32 {
    fn fixed_encode_len() -> (r: usize) {
        let r = u32::fixed_encode_len();
        assert forall|v: NonZeroU32| #[trigger] v.encoding().len() == r by {
            assert(v.value().encoding().len() == r);
        }
        r
    }
}

impl Decode for NonZeroU32 {
    type Error = InvalidValue;

    /// A `u32`; zero is invalid.
    open spec fn decode_spec(src: Seq<u8>) -> (Result<NonZeroU32, BufTooShortOr<InvalidValue>>, nat) {
        match u32::decode_spec(src) {
            (Ok(v), n) => if v == 0 {
                (Err(BufTooShortOr::Or(invalid_value())), n)
            } else {
                (Ok(NonZeroU32::holding(v)), n)
            },
            (Err(_), n) => (Err(BufTooShortOr::TooShort), n),
        }
    }

    fn decode<R: Read>(src: &mut R) -> (r: Result<NonZeroU32, BufTooShortOr<InvalidValue>>) {
        match u32::decode(src) {
            Ok(v) => match NonZeroU32::new(v) {
                Some(n) => Ok(n),
                None => Err(BufTooShortOr::Or(InvalidValue(()))),
            },
            Err(_) => Err(BufTooShortOr::TooShort),
        }
    }
}

impl Encode for Option<NonZeroU32> {
    type Error = Infallible;

    /// The held value, or zero for `None`.
    open spec fn encoding(&self) -> Seq<u8> {
        match self {
            Some(n) => n.value().encoding(),
            None => 0u32.encoding(),
        }
    }

    fn encode<W: Write>(&self, dst: &mut W) -> (r: Result<(), BufTooShortOr<Infallible>>) {
        let v: u32 = match self {
            Some(n) => n.get(),
            None => 0,
        };
        v.encode(dst)
    }
}

impl EncodeLen for Option<NonZeroU32> {
    fn encode_len(&self) -> (r: usize) {
        proof {
            lemma_be_bytes_len(0, 4);
        }
        u32::fixed_encode_len()
    }
}

impl FixedEncodeLenHint for Option<NonZeroU32> {
    fn min_encode_len() -> (r: usize) {
        Self::fixed_encode_len()
    }

    fn max_encode_len() -> (r: usize) {
        Self::fixed_encode_len()
    }
}

impl FixedEncodeLen for Option<NonZeroU32> {
    fn fixed_encode_len() -> (r: usize) {
        let r = u32::fixed_encode_len();
        assert forall|v: Option<NonZeroU32>| #[trigger] v.encoding().len() == r by {
            match v {
                Some(n) => assert(n.value().encoding().len() == r),
                None => assert(0u32.encoding().len() == r),
            }
        }
        r
    }
}

impl Decode for Option<NonZeroU32> {
    type Error = Infallible;

    /// A `u32`; zero reads as `None`.
    open spec fn decode_spec(src: Seq<u8>) -> (Result<Option<NonZeroU32>, BufTooShortOr<Infallible>>, nat) {
        match u32::decode_spec(src) {
            (Ok(v), n) => if v == 0 {
                (Ok(None), n)
            } else {
                (Ok(Some(NonZeroU32::holding(v))), n)
            },
            (Err(e), n) => (Err(e), n),
        }
    }

    fn decode<R: Read>(src: &mut R) -> (r: Result<Option<NonZeroU32>, BufTooShortOr<Infallible>>) {
        match u32::decode(src) {
            Ok(v) => Ok(NonZeroU32::new(v)),
            Err(e) => Err(e),
        }
    }
}

/// A `u64` that is not zero.
#[derive(Debug, Clone, Copy, PartialEq, Eq, PartialOrd, Ord, Hash)]
pub struct NonZeroU64(u64);

impl NonZeroU64 {
    #[verifier::type_invariant]
    spec fn not_zero(self) -> bool {
        self.0 != 0
    }

    /// The value held.
    pub closed spec fn value(self) -> u64 {
        self.0
    }

    /// The non-zero integer that holds `v`.
    pub closed spec fn holding(v: u64) -> Self {
        NonZeroU64(v)
    }

    /// `v` as a non-zero integer, or `None` if it is zero.
    pub fn new(v: u64) -> (r: Option<Self>)
        ensures
            r is Some <==> v != 0,
            r matches Some(n) ==> n == Self::holding(v) && n.value() == v,
    {
        if v == 0 {
            None
        } else {
            Some(NonZeroU64(v))
        }
    }

    /// The value held.
    pub fn get(self) -> (r: u64)
        ensures
            r == self.value(),
            r != 0,
    {
        proof {
            use_type_invariant(&self);
        }
        self.0
    }

    /// The smallest value.
    pub fn min_value() -> (r: Self)
        ensures
            r.value() == 1,
    {
        NonZeroU64(1)
    }

    /// The largest value.
    pub fn max_value() -> (r: Self)
        ensures
            r.value() == 0xffff_ffff_ffff_ffff,
    {
        NonZeroU64(0xffff_ffff_ffff_ffff)
    }
}

impl Encode for NonZeroU64 {
    type Error = Infallible;

    open spec fn encoding(&self) -> Seq<u8> {
        self.value().encoding()
    }

    fn encode<W: Write>(&self, dst: &mut W) -> (r: Result<(), BufTooShortOr<Infallible>>) {
        self.get().encode(dst)
    }
}

impl EncodeLen for NonZeroU64 {
    fn encode_len(&self) -> (r: usize) {
        self.get().encode_len()
    }
}

impl FixedEncodeLenHint for NonZeroU64 {
    fn min_encode_len() -> (r: usize) {
        Self::fixed_encode_len()
    }

    fn max_encode_len() -> (r: usize) {
        Self::fixed_encode_len()
    }
}

impl FixedEncodeLen for NonZeroU64 {
    fn fixed_encode_len() -> (r: usize) {
        let r = u64::fixed_encode_len();
        assert forall|v: NonZeroU64| #[trigger] v.encoding().len() == r by {
            assert(v.value().encoding().len() == r);
        }
        r
    }
}

impl Decode for NonZeroU64 {
    type Error = InvalidValue;

    /// A `u64`; zero is invalid.
    open spec fn decode_spec(src: Seq<u8>) -> (Result<NonZeroU64, BufTooShortOr<InvalidValue>>, nat) {
        match u64::decode_spec(src) {
            (Ok(v), n) => if v == 0 {
                (Err(BufTooShortOr::Or(invalid_value())), n)
            } else {
                (Ok(NonZeroU64::holding(v)), n)
            },
            (Err(_), n) => (Err(BufTooShortOr::TooShort), n),
        }
    }

    fn decode<R: Read>(src: &mut R) -> (r: Result<NonZeroU64, BufTooShortOr<InvalidValue>>) {
        match u64::decode(src) {
            Ok(v) => match NonZeroU64::new(v) {
                Some(n) => Ok(n),
                None => Err(BufTooShortOr::Or(InvalidValue(()))),
            },
            Err(_) => Err(BufTooShortOr::TooShort),
        }
    }
}

impl Encode for Option<NonZeroU64> {
    type Error = Infallible;

    /// The held value, or zero for `None`.
    open spec fn encoding(&self) -> Seq<u8> {
        match self {
            Some(n) => n.value().encoding(),
            None => 0u64.encoding(),
        }
    }

    fn encode<W: Write>(&self, dst: &mut W) -> (r: Result<(), BufTooShortOr<Infallible>>) {
        let v: u64 = match self {
            Some(n) => n.get(),
            None => 0,
        };
        v.encode(dst)
    }
}

impl EncodeLen for Option<NonZeroU64> {
    fn encode_len(&self) -> (r: usize) {
        proof {
            lemma_be_bytes_len(0, 8);
        }
        u64::fixed_encode_len()
    }
}

impl FixedEncodeLenHint for Option<NonZeroU64> {
    fn min_encode_len() -> (r: usize) {
        Self::fixed_encode_len()
    }

    fn max_encode_len() -> (r: usize) {
        Self::fixed_encode_len()
    }
}

impl FixedEncodeLen for Option<NonZeroU64> {
    fn fixed_encode_len() -> (r: usize) {
        let r = u64::fixed_encode_len();
        assert forall|v: Option<NonZeroU64>| #[trigger] v.encoding().len() == r by {
            match v {
                Some(n) => assert(n.value().encoding().len() == r),
                None => assert(0u64.encoding().len() == r),
            }
        }
        r
    }
}

impl Decode for Option<NonZeroU64> {
    type Error = Infallible;

    /// A `u64`; zero reads as `None`.
    open spec fn decode_spec(src: Seq<u8>) -> (Result<Option<NonZeroU64>, BufTooShortOr<Infallible>>, nat) {
        match u64::decode_spec(src) {
            (Ok(v), n) => if v == 0 {
                (Ok(None), n)
            } else {
                (Ok(Some(NonZeroU64::holding(v))), n)
            },
            (Err(e), n) => (Err(e), n),
        }
    }

    fn decode<R: Read>(src: &mut R) -> (r: Result<Option<NonZeroU64>, BufTooShortOr<Infallible>>) {
        match u64::decode(src) {
            Ok(v) => Ok(NonZeroU64::new(v)),
            Err(e) => Err(e),
        }
    }
}

/// A `i8` that is not zero.
#[derive(Debug, Clone, Copy, PartialEq, Eq, PartialOrd, Ord, Hash)]
pub struct NonZeroI8(i8);

impl NonZeroI8 {
    #[verifier::type_invariant]
    spec fn not_zero(self) -> bool {
        self.0 != 0
    }

    /// The value held.
    pub closed spec fn value(self) -> i8 {
        self.0
    }

    /// The non-zero integer that holds `v`.
    pub closed spec fn holding(v: i8) -> Self {
        NonZeroI8(v)
    }

    /// `v` as a non-zero integer, or `None` if it is zero.
    pub fn new(v: i8) -> (r: Option<Self>)
        ensures
            r is Some <==> v != 0,
            r matches Some(n) ==> n == Self::holding(v) && n.value() == v,
    {
        if v == 0 {
            None
        } else {
            Some(NonZeroI8(v))
        }
    }

    /// The value held.
    pub fn get(self) -> (r: i8)
        ensures
            r == self.value(),
            r != 0,
    {
        proof {
            use_type_invariant(&self);
        }
        self.0
    }

    /// The smallest value.
    pub fn min_value() -> (r: Self)
        ensures
            r.value() == -0x80,
    {
        NonZeroI8(-0x80)
    }

    /// The largest value.
    pub fn max_value() -> (r: Self)
        ensures
            r.value() == 0x7f,
    {
        NonZeroI8(0x7f)
    }
}

impl Encode for NonZeroI8 {
    type Error = Infallible;

    open spec fn encoding(&self) -> Seq<u8> {
        self.value().encoding()
    }

    fn encode<W: Write>(&self, dst: &mut W) -> (r: Result<(), BufTooShortOr<Infallible>>) {
        self.get().encode(dst)
    }
}

impl EncodeLen for NonZeroI8 {
    fn encode_len(&self) -> (r: usize) {
        self.get().encode_len()
    }
}

impl FixedEncodeLenHint for NonZeroI8 {
    fn min_encode_len() -> (r: usize) {
        Self::fixed_encode_len()
    }

    fn max_encode_len() -> (r: usize) {
        Self::fixed_encode_len()
    }
}

impl FixedEncodeLen for NonZeroI8 {
    fn fixed_encode_len() -> (r: usize) {
        let r = i8::fixed_encode_len();
        assert forall|v: NonZeroI8| #[trigger] v.encoding().len() == r by {
            assert(v.value().encoding().len() == r);
        }
        r
    }
}

impl Decode for NonZeroI8 {
    type Error = InvalidValue;

    /// A `i8`; zero is invalid.
    open spec fn decode_spec(src: Seq<u8>) -> (Result<NonZeroI8, BufTooShortOr<InvalidValue>>, nat) {
        match i8::decode_spec(src) {
            (Ok(v), n) => if v == 0 {
                (Err(BufTooShortOr::Or(invalid_value())), n)
            } else {
                (Ok(NonZeroI8::holding(v)), n)
            },
            (Err(_), n) => (Err(BufTooShortOr::TooShort), n),
        }
    }

    fn decode<R: Read>(src: &mut R) -> (r: Result<NonZeroI8, BufTooShortOr<InvalidValue>>) {
        match i8::decode(src) {
            Ok(v) => match NonZeroI8::new(v) {
                Some(n) => Ok(n),
                None => Err(BufTooShortOr::Or(InvalidValue(()))),
            },
            Err(_) => Err(BufTooShortOr::TooShort),
        }
    }
}

impl Encode for Option<NonZeroI8> {
    type Error = Infallible;

    /// The held value, or zero for `None`.
    open spec fn encoding(&self) -> Seq<u8> {
        match self {
            Some(n) => n.value().encoding(),
            None => 0i8.encoding(),
        }
    }

    fn encode<W: Write>(&self, dst: &mut W) -> (r: Result<(), BufTooShortOr<Infallible>>) {
        let v: i8 = match self {
            Some(n) => n.get(),
            None => 0,
        };
        v.encode(dst)
    }
}

impl EncodeLen for Option<NonZeroI8> {
    fn encode_len(&self) -> (r: usize) {
        proof {
            lemma_be_bytes_len(0, 1);
        }
        i8::fixed_encode_len()
    }
}

impl FixedEncodeLenHint for Option<NonZeroI8> {
    fn min_encode_len() -> (r: usize) {
        Self::fixed_encode_len()
    }

    fn max_encode_len() -> (r: usize) {
        Self::fixed_encode_len()
    }
}

impl FixedEncodeLen for Option<NonZeroI8> {
    fn fixed_encode_len() -> (r: usize) {
        let r = i8::fixed_encode_len();
        assert forall|v: Option<NonZeroI8>| #[trigger] v.encoding().len() == r by {
            match v {
                Some(n) => assert(n.value().encoding().len() == r),
                None => assert(0i8.encoding().len() == r),
            }
        }
        r
    }
}

impl Decode for Option<NonZeroI8> {
    type Error = Infallible;

    /// A `i8`; zero reads as `None`.
    open spec fn decode_spec(src: Seq<u8>) -> (Result<Option<NonZeroI8>, BufTooShortOr<Infallible>>, nat) {
        match i8::decode_spec(src) {
            (Ok(v), n) => if v == 0 {
                (Ok(None), n)
            } else {
                (Ok(Some(NonZeroI8::holding(v))), n)
            },
            (Err(e), n) => (Err(e), n),
        }
    }

    fn decode<R: Read>(src: &mut R) -> (r: Result<Option<NonZeroI8>, BufTooShortOr<Infallible>>) {
        match i8::decode(src) {
            Ok(v) => Ok(NonZeroI8::new(v)),
            Err(e) => Err(e),
        }
    }
}

/// A `i16` that is not zero.
#[derive(Debug, Clone, Copy, PartialEq, Eq, PartialOrd, Ord, Hash)]
pub struct NonZeroI16(i16);

impl NonZeroI16 {
    #[verifier::type_invariant]
    spec fn not_zero(self) -> bool {
        self.0 != 0
    }

    /// The value held.
    pub closed spec fn value(self) -> i16 {
        self.0
    }

    /// The non-zero integer that holds `v`.
    pub closed spec fn holding(v: i16) -> Self {
        NonZeroI16(v)
    }

    /// `v` as a non-zero integer, or `None` if it is zero.
    pub fn new(v: i16) -> (r: Option<Self>)
        ensures
            r is Some <==> v != 0,
            r matches Some(n) ==> n == Self::holding(v) && n.value() == v,
    {
        if v == 0 {
            None
        } else {
            Some(NonZeroI16(v))
        }
    }

    /// The value held.
    pub fn get(self) -> (r: i16)
        ensures
            r == self.value(),
            r != 0,
    {
        proof {
            use_type_invariant(&self);
        }
        self.0
    }

    /// The smallest value.
    pub fn min_value() -> (r: Self)
        ensures
            r.value() == -0x8000,
    {
        NonZeroI16(-0x8000)
    }

    /// The largest value.
    pub fn max_value() -> (r: Self)
        ensures
            r.value() == 0x7fff,
    {
        NonZeroI16(0x7fff)
    }
}

impl Encode for NonZeroI16 {
    type Error = Infallible;

    open spec fn encoding(&self) -> Seq<u8> {
        self.value().encoding()
    }

    fn encode<W: Write>(&self, dst: &mut W) -> (r: Result<(), BufTooShortOr<Infallible>>) {
        self.get().encode(dst)
    }
}

impl EncodeLen for NonZeroI16 {
    fn encode_len(&self) -> (r: usize) {
        self.get().encode_len()
    }
}

impl FixedEncodeLenHint for NonZeroI16 {
    fn min_encode_len() -> (r: usize) {
        Self::fixed_encode_len()
    }

    fn max_encode_len() -> (r: usize) {
        Self::fixed_encode_len()
    }
}

impl FixedEncodeLen for NonZeroI16 {
    fn fixed_encode_len() -> (r: usize) {
        let r = i16::fixed_encode_len();
        assert forall|v: NonZeroI16| #[trigger] v.encoding().len() == r by {
            assert(v.value().encoding().len() == r);
        }
        r
    }
}

impl Decode for NonZeroI16 {
    type Error = InvalidValue;

    /// A `i16`; zero is invalid.
    open spec fn decode_spec(src: Seq<u8>) -> (Result<NonZeroI16, BufTooShortOr<InvalidValue>>, nat) {
        match i16::decode_spec(src) {
            (Ok(v), n) => if v == 0 {
                (Err(BufTooShortOr::Or(invalid_value())), n)
            } else {
                (Ok(NonZeroI16::holding(v)), n)
            },
            (Err(_), n) => (Err(BufTooShortOr::TooShort), n),
        }
    }

    fn decode<R: Read>(src: &mut R) -> (r: Result<NonZeroI16, BufTooShortOr<InvalidValue>>) {
        match i16::decode(src) {
            Ok(v) => match NonZeroI16::new(v) {
                Some(n) => Ok(n),
                None => Err(BufTooShortOr::Or(InvalidValue(()))),
            },
            Err(_) => Err(BufTooShortOr::TooShort),
        }
    }
}

impl Encode for Option<NonZeroI16> {
    type Error = Infallible;

    /// The held value, or zero for `None`.
    open spec fn encoding(&self) -> Seq<u8> {
        match self {
            Some(n) => n.value().encoding(),
            None => 0i16.encoding(),
        }
    }

    fn encode<W: Write>(&self, dst: &mut W) -> (r: Result<(), BufTooShortOr<Infallible>>) {
        let v: i16 = match self {
            Some(n) => n.get(),
            None => 0,
        };
        v.encode(dst)
    }
}

impl EncodeLen for Option<NonZeroI16> {
    fn encode_len(&self) -> (r: usize) {
        proof {
            lemma_be_bytes_len(0, 2);
        }
        i16::fixed_encode_len()
    }
}

impl FixedEncodeLenHint for Option<NonZeroI16> {
    fn min_encode_len() -> (r: usize) {
        Self::fixed_encode_len()
    }

    fn max_encode_len() -> (r: usize) {
        Self::fixed_encode_len()
    }
}

impl FixedEncodeLen for Option<NonZeroI16> {
    fn fixed_encode_len() -> (r: usize) {
        let r = i16::fixed_encode_len();
        assert forall|v: Option<NonZeroI16>| #[trigger] v.encoding().len() == r by {
            match v {
                Some(n) => assert(n.value().encoding().len() == r),
                None => assert(0i16.encoding().len() == r),
            }
        }
        r
    }
}

impl Decode for Option<NonZeroI16> {
    type Error = Infallible;

    /// A `i16`; zero reads as `None`.
    open spec fn decode_spec(src: Seq<u8>) -> (Result<Option<NonZeroI16>, BufTooShortOr<Infallible>>, nat) {
        match i16::decode_spec(src) {
            (Ok(v), n) => if v == 0 {
                (Ok(None), n)
            } else {
                (Ok(Some(NonZeroI16::holding(v))), n)
            },
            (Err(e), n) => (Err(e), n),
        }
    }

    fn decode<R: Read>(src: &mut R) -> (r: Result<Option<NonZeroI16>, BufTooShortOr<Infallible>>) {
        match i16::decode(src) {
            Ok(v) => Ok(NonZeroI16::new(v)),
            Err(e) => Err(e),
        }
    }
}

/// A `i32` that is not zero.
#[derive(Debug, Clone, Copy, PartialEq, Eq, PartialOrd, Ord, Hash)]
pub struct NonZeroI32(i32);

impl NonZeroI32 {
    #[verifier::type_invariant]
    spec fn not_zero(self) -> bool {
        self.0 != 0
    }

    /// The value held.
    pub closed spec fn value(self) -> i32 {
        self.0
    }

    /// The non-zero integer that holds `v`.
    pub closed spec fn holding(v: i32) -> Self {
        NonZeroI32(v)
    }

    /// `v` as a non-zero integer, or `None` if it is zero.
    pub fn new(v: i32) -> (r: Option<Self>)
        ensures
            r is Some <==> v != 0,
            r matches Some(n) ==> n == Self::holding(v) && n.value() == v,
    {
        if v == 0 {
            None
        } else {
            Some(NonZeroI32(v))
        }
    }

    /// The value held.
    pub fn get(self) -> (r: i32)
        ensures
            r == self.value(),
            r != 0,
    {
        proof {
            use_type_invariant(&self);
        }
        self.0
    }

    /// The smallest value.
    pub fn min_value() -> (r: Self)
        ensures
            r.value() == -0x8000_0000,
    {
        NonZeroI32(-0x8000_0000)
    }

    /// The largest value.
    pub fn max_value() -> (r: Self)
        ensures
            r.value() == 0x7fff_ffff,
    {
        NonZeroI32(0x7fff_ffff)
    }
}

impl Encode for NonZeroI32 {
    type Error = Infallible;

    open spec fn encoding(&self) -> Seq<u8> {
        self.value().encoding()
    }

    fn encode<W: Write>(&self, dst: &mut W) -> (r: Result<(), BufTooShortOr<Infallible>>) {
        self.get().encode(dst)
    }
}

impl EncodeLen for NonZeroI32 {
    fn encode_len(&self) -> (r: usize) {
        self.get().encode_len()
    }
}

impl FixedEncodeLenHint for NonZeroI32 {
    fn min_encode_len() -> (r: usize) {
        Self::fixed_encode_len()
    }

    fn max_encode_len() -> (r: usize) {
        Self::fixed_encode_len()
    }
}

impl FixedEncodeLen for NonZeroI32 {
    fn fixed_encode_len() -> (r: usize) {
        let r = i32::fixed_encode_len();
        assert forall|v: NonZeroI32| #[trigger] v.encoding().len() == r by {
            assert(v.value().encoding().len() == r);
        }
        r
    }
}

impl Decode for NonZeroI32 {
    type Error = InvalidValue;

    /// A `i32`; zero is invalid.
    open spec fn decode_spec(src: Seq<u8>) -> (Result<NonZeroI32, BufTooShortOr<InvalidValue>>, nat) {
        match i32::decode_spec(src) {
            (Ok(v), n) => if v == 0 {
                (Err(BufTooShortOr::Or(invalid_value())), n)
            } else {
                (Ok(NonZeroI32::holding(v)), n)
            },
            (Err(_), n) => (Err(BufTooShortOr::TooShort), n),
        }
    }

    fn decode<R: Read>(src: &mut R) -> (r: Result<NonZeroI32, BufTooShortOr<InvalidValue>>) {
        match i32::decode(src) {
            Ok(v) => match NonZeroI32::new(v) {
                Some(n) => Ok(n),
                None => Err(BufTooShortOr::Or(InvalidValue(()))),
            },
            Err(_) => Err(BufTooShortOr::TooShort),
        }
    }
}

impl Encode for Option<NonZeroI32> {
    type Error = Infallible;

    /// The held value, or zero for `None`.
    open spec fn encoding(&self) -> Seq<u8> {
        match self {
            Some(n) => n.value().encoding(),
            None => 0i32.encoding(),
        }
    }

    fn encode<W: Write>(&self, dst: &mut W) -> (r: Result<(), BufTooShortOr<Infallible>>) {
        let v: i32 = match self {
            Some(n) => n.get(),
            None => 0,
        };
        v.encode(dst)
    }
}

impl EncodeLen for Option<NonZeroI32> {
    fn encode_len(&self) -> (r: usize) {
        proof {
            lemma_be_bytes_len(0, 4);
        }
        i32::fixed_encode_len()
    }
}

impl FixedEncodeLenHint for Option<NonZeroI32> {
    fn min_encode_len() -> (r: usize) {
        Self::fixed_encode_len()
    }

    fn max_encode_len() -> (r: usize) {
        Self::fixed_encode_len()
    }
}

impl FixedEncodeLen for Option<NonZeroI32> {
    fn fixed_encode_len() -> (r: usize) {
        let r = i32::fixed_encode_len();
        assert forall|v: Option<NonZeroI32>| #[trigger] v.encoding().len() == r by {
            match v {
                Some(n) => assert(n.value().encoding().len() == r),
                None => assert(0i32.encoding().len() == r),
            }
        }
        r
    }
}

impl Decode for Option<NonZeroI32> {
    type Error = Infallible;

    /// A `i32`; zero reads as `None`.
    open spec fn decode_spec(src: Seq<u8>) -> (Result<Option<NonZeroI32>, BufTooShortOr<Infallible>>, nat) {
        match i32::decode_spec(src) {
            (Ok(v), n) => if v == 0 {
                (Ok(None), n)
            } else {
                (Ok(Some(NonZeroI32::holding(v))), n)
            },
            (Err(e), n) => (Err(e), n),
        }
    }

    fn decode<R: Read>(src: &mut R) -> (r: Result<Option<NonZeroI32>, BufTooShortOr<Infallible>>) {
        match i32::decode(src) {
            Ok(v) => Ok(NonZeroI32::new(v)),
            Err(e) => Err(e),
        }
    }
}

/// A `i64` that is not zero.
#[derive(Debug, Clone, Copy, PartialEq, Eq, PartialOrd, Ord, Hash)]
pub struct NonZeroI64(i64);

impl NonZeroI64 {
    #[verifier::type_invariant]
    spec fn not_zero(self) -> bool {
        self.0 != 0
    }

    /// The value held.
    pub closed spec fn value(self) -> i64 {
        self.0
    }

    /// The non-zero integer that holds `v`.
    pub closed spec fn holding(v: i64) -> Self {
        NonZeroI64(v)
    }

    /// `v` as a non-zero integer, or `None` if it is zero.
    pub fn new(v: i64) -> (r: Option<Self>)
        ensures
            r is Some <==> v != 0,
            r matches Some(n) ==> n == Self::holding(v) && n.value() == v,
    {
        if v == 0 {
            None
        } else {
            Some(NonZeroI64(v))
        }
    }

    /// The value held.
    pub fn get(self) -> (r: i64)
        ensures
            r == self.value(),
            r != 0,
    {
        proof {
            use_type_invariant(&self);
        }
        self.0
    }

    /// The smallest value.
    pub fn min_value() -> (r: Self)
        ensures
            r.value() == -0x8000_0000_0000_0000,
    {
        NonZeroI64(-0x8000_0000_0000_0000)
    }

    /// The largest value.
    pub fn max_value() -> (r: Self)
        ensures
            r.value() == 0x7fff_ffff_ffff_ffff,
    {
        NonZeroI64(0x7fff_ffff_ffff_ffff)
    }
}

impl Encode for NonZeroI64 {
    type Error = Infallible;

    open spec fn encoding(&self) -> Seq<u8> {
        self.value().encoding()
    }

    fn encode<W: Write>(&self, dst: &mut W) -> (r: Result<(), BufTooShortOr<Infallible>>) {
        self.get().encode(dst)
    }
}

impl EncodeLen for NonZeroI64 {
    fn encode_len(&self) -> (r: usize) {
        self.get().encode_len()
    }
}

impl FixedEncodeLenHint for NonZeroI64 {
    fn min_encode_len() -> (r: usize) {
        Self::fixed_encode_len()
    }

    fn max_encode_len() -> (r: usize) {
        Self::fixed_encode_len()
    }
}

impl FixedEncodeLen for NonZeroI64 {
    fn fixed_encode_len() -> (r: usize) {
        let r = i64::fixed_encode_len();
        assert forall|v: NonZeroI64| #[trigger] v.encoding().len() == r by {
            assert(v.value().encoding().len() == r);
        }
        r
    }
}

impl Decode for NonZeroI64 {
    type Error = InvalidValue;

    /// A `i64`; zero is invalid.
    open spec fn decode_spec(src: Seq<u8>) -> (Result<NonZeroI64, BufTooShortOr<InvalidValue>>, nat) {
        match i64::decode_spec(src) {
            (Ok(v), n) => if v == 0 {
                (Err(BufTooShortOr::Or(invalid_value())), n)
            } else {
                (Ok(NonZeroI64::holding(v)), n)
            },
            (Err(_), n) => (Err(BufTooShortOr::TooShort), n),
        }
    }

    fn decode<R: Read>(src: &mut R) -> (r: Result<NonZeroI64, BufTooShortOr<InvalidValue>>) {
        match i64::decode(src) {
            Ok(v) => match NonZeroI64::new(v) {
                Some(n) => Ok(n),
                None => Err(BufTooShortOr::Or(InvalidValue(()))),
            },
            Err(_) => Err(BufTooShortOr::TooShort),
        }
    }
}

impl Encode for Option<NonZeroI64> {
    type Error = Infallible;

    /// The held value, or zero for `None`.
    open spec fn encoding(&self) -> Seq<u8> {
        match self {
            Some(n) => n.value().encoding(),
            None => 0i64.encoding(),
        }
    }

    fn encode<W: Write>(&self, dst: &mut W) -> (r: Result<(), BufTooShortOr<Infallible>>) {
        let v: i64 = match self {
            Some(n) => n.get(),
            None => 0,
        };
        v.encode(dst)
    }
}

impl EncodeLen for Option<NonZeroI64> {
    fn encode_len(&self) -> (r: usize) {
        proof {
            lemma_be_bytes_len(0, 8);
        }
        i64::fixed_encode_len()
    }
}

impl FixedEncodeLenHint for Option<NonZeroI64> {
    fn min_encode_len() -> (r: usize) {
        Self::fixed_encode_len()
    }

    fn max_encode_len() -> (r: usize) {
        Self::fixed_encode_len()
    }
}

impl FixedEncodeLen for Option<NonZeroI64> {
    fn fixed_encode_len() -> (r: usize) {
        let r = i64::fixed_encode_len();
        assert forall|v: Option<NonZeroI64>| #[trigger] v.encoding().len() == r by {
            match v {
                Some(n) => assert(n.value().encoding().len() == r),
                None => assert(0i64.encoding().len() == r),
            }
        }
        r
    }
}

impl Decode for Option<NonZeroI64> {
    type Error = Infallible;

    /// A `i64`; zero reads as `None`.
    open spec fn decode_spec(src: Seq<u8>) -> (Result<Option<NonZeroI64>, BufTooShortOr<Infallible>>, nat) {
        match i64::decode_spec(src) {
            (Ok(v), n) => if v == 0 {
                (Ok(None), n)
            } else {
                (Ok(Some(NonZeroI64::holding(v))), n)
            },
            (Err(e), n) => (Err(e), n),
        }
    }

    fn decode<R: Read>(src: &mut R) -> (r: Result<Option<NonZeroI64>, BufTooShortOr<Infallible>>) {
        match i64::decode(src) {
            Ok(v) => Ok(NonZeroI64::new(v)),
            Err(e) => Err(e),
        }
    }
}
/// A `usize` that is not zero.
#[derive(Debug, Clone, Copy, PartialEq, Eq, PartialOrd, Ord, Hash)]
pub struct NonZeroUsize(usize);

impl NonZeroUsize {
    #[verifier::type_invariant]
    spec fn not_zero(self) -> bool {
        self.0 != 0
    }

    /// The value held.
    pub closed spec fn value(self) -> usize {
        self.0
    }

    /// The non-zero integer that holds `v`.
    pub closed spec fn holding(v: usize) -> Self {
        NonZeroUsize(v)
    }

    /// `v` as a non-zero integer, or `None` if it is zero.
    pub fn new(v: usize) -> (r: Option<Self>)
        ensures
            r is Some <==> v != 0,
            r matches Some(n) ==> n == Self::holding(v) && n.value() == v,
    {
        if v == 0 {
            None
        } else {
            Some(NonZeroUsize(v))
        }
    }

    /// The value held.
    pub fn get(self) -> (r: usize)
        ensures
            r == self.value(),
            r != 0,
    {
        proof {
            use_type_invariant(&self);
        }
        self.0
    }

    /// The smallest value.
    pub fn min_value() -> (r: Self)
        ensures
            r.value() == 1,
    {
        NonZeroUsize(1)
    }

    /// The largest value.
    pub fn max_value() -> (r: Self)
        ensures
            r.value() == usize::MAX,
    {
        NonZeroUsize(usize::MAX)
    }
}

impl Encode for NonZeroUsize {
    type Error = Infallible;

    open spec fn encoding(&self) -> Seq<u8> {
        self.value().encoding()
    }

    fn encode<W: Write>(&self, dst: &mut W) -> (r: Result<(), BufTooShortOr<Infallible>>) {
        self.get().encode(dst)
    }
}

impl EncodeLen for NonZeroUsize {
    fn encode_len(&self) -> (r: usize) {
        self.get().encode_len()
    }
}

impl FixedEncodeLenHint for NonZeroUsize {
    fn min_encode_len() -> (r: usize) {
        Self::fixed_encode_len()
    }

    fn max_encode_len() -> (r: usize) {
        Self::fixed_encode_len()
    }
}

impl FixedEncodeLen for NonZeroUsize {
    fn fixed_encode_len() -> (r: usize) {
        let r = usize::fixed_encode_len();
        assert forall|v: NonZeroUsize| #[trigger] v.encoding().len() == r by {
            assert(v.value().encoding().len() == r);
        }
        r
    }
}

impl Decode for NonZeroUsize {
    type Error = InvalidValue;

    /// A `usize`; zero is invalid.
    open spec fn decode_spec(src: Seq<u8>) -> (Result<NonZeroUsize, BufTooShortOr<InvalidValue>>, nat) {
        match usize::decode_spec(src) {
            (Ok(v), n) => if v == 0 {
                (Err(BufTooShortOr::Or(invalid_value())), n)
            } else {
                (Ok(NonZeroUsize::holding(v)), n)
            },
            (Err(_), n) => (Err(BufTooShortOr::TooShort), n),
        }
    }

    fn decode<R: Read>(src: &mut R) -> (r: Result<NonZeroUsize, BufTooShortOr<InvalidValue>>) {
        match usize::decode(src) {
            Ok(v) => match NonZeroUsize::new(v) {
                Some(n) => Ok(n),
                None => Err(BufTooShortOr::Or(InvalidValue(()))),
            },
            Err(_) => Err(BufTooShortOr::TooShort),
        }
    }
}

impl Encode for Option<NonZeroUsize> {
    type Error = Infallible;

    /// The held value, or zero for `None`.
    open spec fn encoding(&self) -> Seq<u8> {
        match self {
            Some(n) => n.value().encoding(),
            None => 0usize.encoding(),
        }
    }

    fn encode<W: Write>(&self, dst: &mut W) -> (r: Result<(), BufTooShortOr<Infallible>>) {
        let v: usize = match self {
            Some(n) => n.get(),
            None => 0,
        };
        v.encode(dst)
    }
}

impl EncodeLen for Option<NonZeroUsize> {
    fn encode_len(&self) -> (r: usize) {
        proof {
            lemma_be_bytes_len(0, super::usize_bytes());
        }
        usize::fixed_encode_len()
    }
}

impl FixedEncodeLenHint for Option<NonZeroUsize> {
    fn min_encode_len() -> (r: usize) {
        Self::fixed_encode_len()
    }

    fn max_encode_len() -> (r: usize) {
        Self::fixed_encode_len()
    }
}

impl FixedEncodeLen for Option<NonZeroUsize> {
    fn fixed_encode_len() -> (r: usize) {
        let r = usize::fixed_encode_len();
        assert forall|v: Option<NonZeroUsize>| #[trigger] v.encoding().len() == r by {
            match v {
                Some(n) => assert(n.value().encoding().len() == r),
                None => assert(0usize.encoding().len() == r),
            }
        }
        r
    }
}

impl Decode for Option<NonZeroUsize> {
    type Error = Infallible;

    /// A `usize`; zero reads as `None`.
    open spec fn decode_spec(src: Seq<u8>) -> (Result<Option<NonZeroUsize>, BufTooShortOr<Infallible>>, nat) {
        match usize::decode_spec(src) {
            (Ok(v), n) => if v == 0 {
                (Ok(None), n)
            } else {
                (Ok(Some(NonZeroUsize::holding(v))), n)
            },
            (Err(e), n) => (Err(e), n),
        }
    }

    fn decode<R: Read>(src: &mut R) -> (r: Result<Option<NonZeroUsize>, BufTooShortOr<Infallible>>) {
        match usize::decode(src) {
            Ok(v) => Ok(NonZeroUsize::new(v)),
            Err(e) => Err(e),
        }
    }
}

/// A `isize` that is not zero.
#[derive(Debug, Clone, Copy, PartialEq, Eq, PartialOrd, Ord, Hash)]
pub struct NonZeroIsize(isize);

impl NonZeroIsize {
    #[verifier::type_invariant]
    spec fn not_zero(self) -> bool {
        self.0 != 0
    }

    /// The value held.
    pub closed spec fn value(self) -> isize {
        self.0
    }

    /// The non-zero integer that holds `v`.
    pub closed spec fn holding(v: isize) -> Self {
        NonZeroIsize(v)
    }

    /// `v` as a non-zero integer, or `None` if it is zero.
    pub fn new(v: isize) -> (r: Option<Self>)
        ensures
            r is Some <==> v != 0,
            r matches Some(n) ==> n == Self::holding(v) && n.value() == v,
    {
        if v == 0 {
            None
        } else {
            Some(NonZeroIsize(v))
        }
    }

    /// The value held.
    pub fn get(self) -> (r: isize)
        ensures
            r == self.value(),
            r != 0,
    {
        proof {
            use_type_invariant(&self);
        }
        self.0
    }

    /// The smallest value.
    pub fn min_value() -> (r: Self)
        ensures
            r.value() == isize::MIN,
    {
        NonZeroIsize(isize::MIN)
    }

    /// The largest value.
    pub fn max_value() -> (r: Self)
        ensures
            r.value() == isize::MAX,
    {
        NonZeroIsize(isize::MAX)
    }
}

impl Encode for NonZeroIsize {
    type Error = Infallible;

    open spec fn encoding(&self) -> Seq<u8> {
        self.value().encoding()
    }

    fn encode<W: Write>(&self, dst: &mut W) -> (r: Result<(), BufTooShortOr<Infallible>>) {
        self.get().encode(dst)
    }
}

impl EncodeLen for NonZeroIsize {
    fn encode_len(&self) -> (r: usize) {
        self.get().encode_len()
    }
}

impl FixedEncodeLenHint for NonZeroIsize {
    fn min_encode_len() -> (r: usize) {
        Self::fixed_encode_len()
    }

    fn max_encode_len() -> (r: usize) {
        Self::fixed_encode_len()
    }
}

impl FixedEncodeLen for NonZeroIsize {
    fn fixed_encode_len() -> (r: usize) {
        let r = isize::fixed_encode_len();
        assert forall|v: NonZeroIsize| #[trigger] v.encoding().len() == r by {
            assert(v.value().encoding().len() == r);
        }
        r
    }
}

impl Decode for NonZeroIsize {
    type Error = InvalidValue;

    /// A `isize`; zero is invalid.
    open spec fn decode_spec(src: Seq<u8>) -> (Result<NonZeroIsize, BufTooShortOr<InvalidValue>>, nat) {
        match isize::decode_spec(src) {
            (Ok(v), n) => if v == 0 {
                (Err(BufTooShortOr::Or(invalid_value())), n)
            } else {
                (Ok(NonZeroIsize::holding(v)), n)
            },
            (Err(_), n) => (Err(BufTooShortOr::TooShort), n),
        }
    }

    fn decode<R: Read>(src: &mut R) -> (r: Result<NonZeroIsize, BufTooShortOr<InvalidValue>>) {
        match isize::decode(src) {
            Ok(v) => match NonZeroIsize::new(v) {
                Some(n) => Ok(n),
                None => Err(BufTooShortOr::Or(InvalidValue(()))),
            },
            Err(_) => Err(BufTooShortOr::TooShort),
        }
    }
}

impl Encode for Option<NonZeroIsize> {
    type Error = Infallible;

    /// The held value, or zero for `None`.
    open spec fn encoding(&self) -> Seq<u8> {
        match self {
            Some(n) => n.value().encoding(),
            None => 0isize.encoding(),
        }
    }

    fn encode<W: Write>(&self, dst: &mut W) -> (r: Result<(), BufTooShortOr<Infallible>>) {
        let v: isize = match self {
            Some(n) => n.get(),
            None => 0,
        };
        v.encode(dst)
    }
}

impl EncodeLen for Option<NonZeroIsize> {
    fn encode_len(&self) -> (r: usize) {
        proof {
            lemma_be_bytes_len(0, super::usize_bytes());
        }
        isize::fixed_encode_len()
    }
}

impl FixedEncodeLenHint for Option<NonZeroIsize> {
    fn min_encode_len() -> (r: usize) {
        Self::fixed_encode_len()
    }

    fn max_encode_len() -> (r: usize) {
        Self::fixed_encode_len()
    }
}

impl FixedEncodeLen for Option<NonZeroIsize> {
    fn fixed_encode_len() -> (r: usize) {
        let r = isize::fixed_encode_len();
        assert forall|v: Option<NonZeroIsize>| #[trigger] v.encoding().len() == r by {
            match v {
                Some(n) => assert(n.value().encoding().len() == r),
                None => assert(0isize.encoding().len() == r),
            }
        }
        r
    }
}

impl Decode for Option<NonZeroIsize> {
    type Error = Infallible;

    /// A `isize`; zero reads as `None`.
    open spec fn decode_spec(src: Seq<u8>) -> (Result<Option<NonZeroIsize>, BufTooShortOr<Infallible>>, nat) {
        match isize::decode_spec(src) {
            (Ok(v), n) => if v == 0 {
                (Ok(None), n)
            } else {
                (Ok(Some(NonZeroIsize::holding(v))), n)
            },
            (Err(e), n) => (Err(e), n),
        }
    }

    fn decode<R: Read>(src: &mut R) -> (r: Result<Option<NonZeroIsize>, BufTooShortOr<Infallible>>) {
        match isize::decode(src) {
            Ok(v) => Ok(NonZeroIsize::new(v)),
            Err(e) => Err(e),
        }
    }
}


} // verus!
