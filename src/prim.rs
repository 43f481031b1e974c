//! Big-endian, fixed-width encodings of the integer types, `bool` and `()`.

use crate::error::BufTooShortOr;
use crate::read::{Decode, Read, RoundTrip};
use crate::write::{Encode, EncodeLen, FixedEncodeLen, FixedEncodeLenHint, Write};
use core::convert::Infallible;
use core::marker::PhantomData;
use vstd::arithmetic::power::pow;
use vstd::prelude::*;

mod nonzero;

pub use nonzero::{
    NonZeroI16, NonZeroI32, NonZeroI64, NonZeroI8, NonZeroIsize, NonZeroU16, NonZeroU32, NonZeroU64,
    NonZeroU8, NonZeroUsize,
};

verus! {

/// A primitive value was read whose bytes do not stand for any value of its
/// type: a `bool` byte other than 0 or 1.
#[derive(Debug, Clone, Copy, PartialEq, Eq, Hash)]
pub struct InvalidValue(pub(crate) ());

/// The one value of [`InvalidValue`].
pub closed spec fn invalid_value() -> InvalidValue {
    InvalidValue(())
}

impl crate::error::BufError for InvalidValue {

}

/// The number that `s` spells in base 256, most significant byte first.
pub open spec fn be_value(s: Seq<u8>) -> nat
    decreases s.len(),
{
    if s.len() == 0 {
        0
    } else {
        be_value(s.drop_last()) * 256 + s.last() as nat
    }
}

/// The last `n` base-256 digits of `v`, most significant first.
pub open spec fn be_bytes(v: nat, n: nat) -> Seq<u8>
    decreases n,
{
    if n == 0 {
        Seq::empty()
    } else {
        be_bytes(v / 256, (n - 1) as nat).push((v % 256) as u8)
    }
}

/// The two's-complement reading of the `bits`-bit pattern `v`.
pub open spec fn from_twos(v: nat, bits: nat) -> int {
    if v < pow(2, (bits - 1) as nat) {
        v as int
    } else {
        v - pow(2, bits)
    }
}

/// The `bits`-bit two's-complement pattern of `v`.
pub open spec fn to_twos(v: int, bits: nat) -> nat {
    if v >= 0 {
        v as nat
    } else {
        (v + pow(2, bits)) as nat
    }
}

/// What decoding a fixed-width value of `n` bytes from `src` gives: the
/// number they spell, or a too-short error that consumes nothing.
pub open spec fn be_decode_spec(src: Seq<u8>, n: nat) -> (Result<nat, BufTooShortOr<Infallible>>, nat) {
    if src.len() >= n {
        (Ok(be_value(src.take(n as int))), n)
    } else {
        (Err(BufTooShortOr::TooShort), 0)
    }
}

proof fn lemma_be_value_bound(s: Seq<u8>)
    ensures
        be_value(s) < pow(256, s.len()),
    decreases s.len(),
{
    if s.len() == 0 {
        vstd::arithmetic::power::lemma_pow0(256);
    } else {
        lemma_be_value_bound(s.drop_last());
        let p = pow(256, (s.len() - 1) as nat);
        vstd::arithmetic::power::lemma_pow_adds(256, (s.len() - 1) as nat, 1);
        vstd::arithmetic::power::lemma_pow1(256);
        assert(be_value(s.drop_last()) * 256 + s.last() < p * 256) by (nonlinear_arith)
            requires
                be_value(s.drop_last()) < p,
                s.last() < 256,
        ;
    }
}

/// Spelling `v` in `n` base-256 digits and reading them back gives `v`,
/// when it fits.
pub proof fn lemma_be_round_trip(v: nat, n: nat)
    requires
        v < pow(256, n),
    ensures
        be_bytes(v, n).len() == n,
        be_value(be_bytes(v, n)) == v,
    decreases n,
{
    if n == 0 {
        vstd::arithmetic::power::lemma_pow0(256);
    } else {
        vstd::arithmetic::power::lemma_pow_adds(256, (n - 1) as nat, 1);
        vstd::arithmetic::power::lemma_pow1(256);
        let p = pow(256, (n - 1) as nat);
        assert(v / 256 < p) by (nonlinear_arith)
            requires
                v < p * 256,
        ;
        lemma_be_round_trip(v / 256, (n - 1) as nat);
        let b = be_bytes(v, n);
        assert(b.drop_last() =~= be_bytes(v / 256, (n - 1) as nat));
        assert(v == (v / 256) * 256 + v % 256) by (nonlinear_arith);
    }
}

/// Reads `N` bytes and the number they spell, most significant first.
fn read_be<R: Read, const N: usize>(src: &mut R) -> (r: Result<u64, BufTooShortOr<Infallible>>)
    requires
        N <= 8,
    ensures
        r matches Ok(v) ==> be_decode_spec(old(src).contents(), N as nat).0 == Ok::<
            nat,
            BufTooShortOr<Infallible>,
        >(v as nat),
        r is Err ==> r matches Err(BufTooShortOr::TooShort),
        r is Ok <==> be_decode_spec(old(src).contents(), N as nat).0 is Ok,
        final(src).contents() == old(src).contents().skip(
            be_decode_spec(old(src).contents(), N as nat).1 as int,
        ),
{
    let a: [u8; N] = match src.read_exact::<N>() {
        Ok(a) => a,
        Err(_) => {
            assert(old(src).contents().skip(0) =~= old(src).contents());
            return Err(BufTooShortOr::TooShort);
        },
    };
    let mut v: u64 = 0;
    let mut i: usize = 0;
    while i < N
        invariant
            i <= N <= 8,
            a@.len() == N,
            v as nat == be_value(a@.take(i as int)),
        decreases N - i,
    {
        proof {
            lemma_be_value_bound(a@.take(i as int));
            vstd::arithmetic::power::lemma_pow_increases(256, i as nat, 7);
            assert(pow(256, 7) == 0x100000000000000) by {
                reveal_with_fuel(pow, 8);
            }
            assert(a@.take(i + 1).drop_last() =~= a@.take(i as int));
        }
        v = v * 256 + a[i] as u64;
        i = i + 1;
    }
    assert(a@.take(N as int) =~= a@);
    Ok(v)
}

/// Writes the last `N` base-256 digits of `v`, most significant first.
fn write_be<W: Write, const N: usize>(dst: &mut W, v: u64) -> (r: Result<(), BufTooShortOr<Infallible>>)
    requires
        N <= 8,
    ensures
        r is Ok <==> N <= old(dst).room(),
        r is Ok ==> final(dst).written() == old(dst).written() + be_bytes(v as nat, N as nat)
            && final(dst).room() == old(dst).room() - N,
        r is Err ==> r matches Err(BufTooShortOr::TooShort),
{
    let mut a = [0u8; N];
    let mut rest: u64 = v;
    let mut i: usize = N;
    while i > 0
        invariant
            i <= N,
            a@.len() == N,
            be_bytes(v as nat, N as nat) == be_bytes(rest as nat, i as nat) + a@.skip(i as int),
        decreases i,
    {
        let ghost before = a@;
        a[i - 1] = (rest % 256) as u8;
        proof {
            assert(be_bytes(rest as nat, i as nat) == be_bytes((rest / 256) as nat, (i - 1) as nat).push(
                (rest % 256) as u8,
            ));
            assert(a@.skip(i - 1) =~= seq![(rest % 256) as u8] + before.skip(i as int));
            assert(be_bytes(rest as nat, i as nat) + before.skip(i as int) =~= be_bytes(
                (rest / 256) as nat,
                (i - 1) as nat,
            ) + a@.skip(i - 1));
        }
        rest = rest / 256;
        i = i - 1;
    }
    assert(a@.skip(0) =~= a@);
    assert(be_bytes(rest as nat, 0) =~= Seq::<u8>::empty());
    assert(be_bytes(v as nat, N as nat) =~= a@);
    match dst.write_from(&a) {
        Ok(()) => Ok(()),
        Err(_) => Err(BufTooShortOr::TooShort),
    }
}

proof fn lemma_powers()
    ensures
        pow(256, 1) == 0x100,
        pow(256, 2) == 0x10000,
        pow(256, 4) == 0x1_0000_0000,
        pow(256, 8) == 0x1_0000_0000_0000_0000,
        pow(2, 7) == 0x80,
        pow(2, 8) == 0x100,
        pow(2, 15) == 0x8000,
        pow(2, 16) == 0x10000,
        pow(2, 31) == 0x8000_0000,
        pow(2, 32) == 0x1_0000_0000,
        pow(2, 63) == 0x8000_0000_0000_0000,
        pow(2, 64) == 0x1_0000_0000_0000_0000,
{
    reveal_with_fuel(pow, 65);
}

/// A byte encodes as itself.
pub(crate) proof fn lemma_u8_encoding(b: u8)
    ensures
        b.encoding() == seq![b],
{
    assert(be_bytes(b as nat, 1) == be_bytes(b as nat / 256, 0).push((b as nat % 256) as u8));
    assert(b.encoding() =~= seq![b]);
}

pub(crate) proof fn lemma_be_bytes_len(v: nat, n: nat)
    ensures
        be_bytes(v, n).len() == n,
    decreases n,
{
    if n > 0 {
        lemma_be_bytes_len(v / 256, (n - 1) as nat);
    }
}

impl Encode for u8 {
    type Error = Infallible;

    open spec fn encoding(&self) -> Seq<u8> {
        be_bytes(*self as nat, 1)
    }

    fn encode<W: Write>(&self, dst: &mut W) -> (r: Result<(), BufTooShortOr<Infallible>>) {
        proof {
            lemma_powers();
            lemma_be_bytes_len(*self as nat, 1);
        }
        write_be::<W, 1>(dst, *self as u64)
    }
}

impl EncodeLen for u8 {
    fn encode_len(&self) -> (r: usize) {
        proof {
            lemma_be_bytes_len(*self as nat, 1);
        }
        1
    }
}

impl FixedEncodeLenHint for u8 {
    fn min_encode_len() -> (r: usize) {
        Self::fixed_encode_len()
    }

    fn max_encode_len() -> (r: usize) {
        Self::fixed_encode_len()
    }
}

impl FixedEncodeLen for u8 {
    fn fixed_encode_len() -> (r: usize) {
        assert forall|v: u8| #[trigger] v.encoding().len() == 1 by {
            lemma_be_bytes_len(v as nat, 1);
        }
        1
    }
}

impl Decode for u8 {
    type Error = Infallible;

    open spec fn decode_spec(src: Seq<u8>) -> (Result<u8, BufTooShortOr<Infallible>>, nat) {
        match be_decode_spec(src, 1) {
            (Ok(v), n) => (Ok(v as u8), n),
            (Err(e), n) => (Err(e), n),
        }
    }

    fn decode<R: Read>(src: &mut R) -> (r: Result<u8, BufTooShortOr<Infallible>>) {
        match read_be::<R, 1>(src) {
            Ok(v) => {
                proof {
                    lemma_powers();
                    lemma_be_value_bound(old(src).contents().take(1));
                }
                Ok(v as u8)
            },
            Err(e) => Err(e),
        }
    }
}

impl RoundTrip for u8 {
    proof fn lemma_round_trip(v: u8, rest: Seq<u8>) {
        lemma_powers();
        lemma_be_round_trip(v as nat, 1);
        assert((v.encoding() + rest).take(1) =~= v.encoding());
    }
}

impl Encode for u16 {
    type Error = Infallible;

    open spec fn encoding(&self) -> Seq<u8> {
        be_bytes(*self as nat, 2)
    }

    fn encode<W: Write>(&self, dst: &mut W) -> (r: Result<(), BufTooShortOr<Infallible>>) {
        proof {
            lemma_powers();
            lemma_be_bytes_len(*self as nat, 2);
        }
        write_be::<W, 2>(dst, *self as u64)
    }
}

impl EncodeLen for u16 {
    fn encode_len(&self) -> (r: usize) {
        proof {
            lemma_be_bytes_len(*self as nat, 2);
        }
        2
    }
}

impl FixedEncodeLenHint for u16 {
    fn min_encode_len() -> (r: usize) {
        Self::fixed_encode_len()
    }

    fn max_encode_len() -> (r: usize) {
        Self::fixed_encode_len()
    }
}

impl FixedEncodeLen for u16 {
    fn fixed_encode_len() -> (r: usize) {
        assert forall|v: u16| #[trigger] v.encoding().len() == 2 by {
            lemma_be_bytes_len(v as nat, 2);
        }
        2
    }
}

impl Decode for u16 {
    type Error = Infallible;

    open spec fn decode_spec(src: Seq<u8>) -> (Result<u16, BufTooShortOr<Infallible>>, nat) {
        match be_decode_spec(src, 2) {
            (Ok(v), n) => (Ok(v as u16), n),
            (Err(e), n) => (Err(e), n),
        }
    }

    fn decode<R: Read>(src: &mut R) -> (r: Result<u16, BufTooShortOr<Infallible>>) {
        match read_be::<R, 2>(src) {
            Ok(v) => {
                proof {
                    lemma_powers();
                    lemma_be_value_bound(old(src).contents().take(2));
                }
                Ok(v as u16)
            },
            Err(e) => Err(e),
        }
    }
}

impl RoundTrip for u16 {
    proof fn lemma_round_trip(v: u16, rest: Seq<u8>) {
        lemma_powers();
        lemma_be_round_trip(v as nat, 2);
        assert((v.encoding() + rest).take(2) =~= v.encoding());
    }
}

impl Encode for u32 {
    type Error = Infallible;

    open spec fn encoding(&self) -> Seq<u8> {
        be_bytes(*self as nat, 4)
    }

    fn encode<W: Write>(&self, dst: &mut W) -> (r: Result<(), BufTooShortOr<Infallible>>) {
        proof {
            lemma_powers();
            lemma_be_bytes_len(*self as nat, 4);
        }
        write_be::<W, 4>(dst, *self as u64)
    }
}

impl EncodeLen for u32 {
    fn encode_len(&self) -> (r: usize) {
        proof {
            lemma_be_bytes_len(*self as nat, 4);
        }
        4
    }
}

impl FixedEncodeLenHint for u32 {
    fn min_encode_len() -> (r: usize) {
        Self::fixed_encode_len()
    }

    fn max_encode_len() -> (r: usize) {
        Self::fixed_encode_len()
    }
}

impl FixedEncodeLen for u32 {
    fn fixed_encode_len() -> (r: usize) {
        assert forall|v: u32| #[trigger] v.encoding().len() == 4 by {
            lemma_be_bytes_len(v as nat, 4);
        }
        4
    }
}

impl Decode for u32 {
    type Error = Infallible;

    open spec fn decode_spec(src: Seq<u8>) -> (Result<u32, BufTooShortOr<Infallible>>, nat) {
        match be_decode_spec(src, 4) {
            (Ok(v), n) => (Ok(v as u32), n),
            (Err(e), n) => (Err(e), n),
        }
    }

    fn decode<R: Read>(src: &mut R) -> (r: Result<u32, BufTooShortOr<Infallible>>) {
        match read_be::<R, 4>(src) {
            Ok(v) => {
                proof {
                    lemma_powers();
                    lemma_be_value_bound(old(src).contents().take(4));
                }
                Ok(v as u32)
            },
            Err(e) => Err(e),
        }
    }
}

impl RoundTrip for u32 {
    proof fn lemma_round_trip(v: u32, rest: Seq<u8>) {
        lemma_powers();
        lemma_be_round_trip(v as nat, 4);
        assert((v.encoding() + rest).take(4) =~= v.encoding());
    }
}

impl Encode for u64 {
    type Error = Infallible;

    open spec fn encoding(&self) -> Seq<u8> {
        be_bytes(*self as nat, 8)
    }

    fn encode<W: Write>(&self, dst: &mut W) -> (r: Result<(), BufTooShortOr<Infallible>>) {
        proof {
            lemma_powers();
            lemma_be_bytes_len(*self as nat, 8);
        }
        write_be::<W, 8>(dst, *self as u64)
    }
}

impl EncodeLen for u64 {
    fn encode_len(&self) -> (r: usize) {
        proof {
            lemma_be_bytes_len(*self as nat, 8);
        }
        8
    }
}

impl FixedEncodeLenHint for u64 {
    fn min_encode_len() -> (r: usize) {
        Self::fixed_encode_len()
    }

    fn max_encode_len() -> (r: usize) {
        Self::fixed_encode_len()
    }
}

impl FixedEncodeLen for u64 {
    fn fixed_encode_len() -> (r: usize) {
        assert forall|v: u64| #[trigger] v.encoding().len() == 8 by {
            lemma_be_bytes_len(v as nat, 8);
        }
        8
    }
}

impl Decode for u64 {
    type Error = Infallible;

    open spec fn decode_spec(src: Seq<u8>) -> (Result<u64, BufTooShortOr<Infallible>>, nat) {
        match be_decode_spec(src, 8) {
            (Ok(v), n) => (Ok(v as u64), n),
            (Err(e), n) => (Err(e), n),
        }
    }

    fn decode<R: Read>(src: &mut R) -> (r: Result<u64, BufTooShortOr<Infallible>>) {
        match read_be::<R, 8>(src) {
            Ok(v) => {
                proof {
                    lemma_powers();
                    lemma_be_value_bound(old(src).contents().take(8));
                }
                Ok(v as u64)
            },
            Err(e) => Err(e),
        }
    }
}

impl RoundTrip for u64 {
    proof fn lemma_round_trip(v: u64, rest: Seq<u8>) {
        lemma_powers();
        lemma_be_round_trip(v as nat, 8);
        assert((v.encoding() + rest).take(8) =~= v.encoding());
    }
}

impl Encode for i8 {
    type Error = Infallible;

    open spec fn encoding(&self) -> Seq<u8> {
        be_bytes(to_twos(*self as int, 8), 1)
    }

    fn encode<W: Write>(&self, dst: &mut W) -> (r: Result<(), BufTooShortOr<Infallible>>) {
        proof {
            lemma_powers();
            lemma_be_bytes_len(to_twos(*self as int, 8), 1);
        }
        let v = *self;
        let pattern: u64 = if v >= 0 {
            v as u64
        } else {
            0xff - (-(v + 1)) as u64
        };
        write_be::<W, 1>(dst, pattern)
    }
}

impl EncodeLen for i8 {
    fn encode_len(&self) -> (r: usize) {
        proof {
            lemma_be_bytes_len(to_twos(*self as int, 8), 1);
        }
        1
    }
}

impl FixedEncodeLenHint for i8 {
    fn min_encode_len() -> (r: usize) {
        Self::fixed_encode_len()
    }

    fn max_encode_len() -> (r: usize) {
        Self::fixed_encode_len()
    }
}

impl FixedEncodeLen for i8 {
    fn fixed_encode_len() -> (r: usize) {
        assert forall|v: i8| #[trigger] v.encoding().len() == 1 by {
            lemma_be_bytes_len(to_twos(v as int, 8), 1);
        }
        1
    }
}

impl Decode for i8 {
    type Error = Infallible;

    open spec fn decode_spec(src: Seq<u8>) -> (Result<i8, BufTooShortOr<Infallible>>, nat) {
        match be_decode_spec(src, 1) {
            (Ok(v), n) => (Ok(from_twos(v, 8) as i8), n),
            (Err(e), n) => (Err(e), n),
        }
    }

    fn decode<R: Read>(src: &mut R) -> (r: Result<i8, BufTooShortOr<Infallible>>) {
        match read_be::<R, 1>(src) {
            Ok(v) => {
                proof {
                    lemma_powers();
                    lemma_be_value_bound(old(src).contents().take(1));
                }
                if v < 0x80 {
                    Ok(v as i8)
                } else {
                    Ok(-((0xff - v) as i8) - 1)
                }
            },
            Err(e) => Err(e),
        }
    }
}

impl RoundTrip for i8 {
    proof fn lemma_round_trip(v: i8, rest: Seq<u8>) {
        lemma_powers();
        lemma_be_round_trip(to_twos(v as int, 8), 1);
        assert((v.encoding() + rest).take(1) =~= v.encoding());
    }
}

impl Encode for i16 {
    type Error = Infallible;

    open spec fn encoding(&self) -> Seq<u8> {
        be_bytes(to_twos(*self as int, 16), 2)
    }

    fn encode<W: Write>(&self, dst: &mut W) -> (r: Result<(), BufTooShortOr<Infallible>>) {
        proof {
            lemma_powers();
            lemma_be_bytes_len(to_twos(*self as int, 16), 2);
        }
        let v = *self;
        let pattern: u64 = if v >= 0 {
            v as u64
        } else {
            0xffff - (-(v + 1)) as u64
        };
        write_be::<W, 2>(dst, pattern)
    }
}

impl EncodeLen for i16 {
    fn encode_len(&self) -> (r: usize) {
        proof {
            lemma_be_bytes_len(to_twos(*self as int, 16), 2);
        }
        2
    }
}

impl FixedEncodeLenHint for i16 {
    fn min_encode_len() -> (r: usize) {
        Self::fixed_encode_len()
    }

    fn max_encode_len() -> (r: usize) {
        Self::fixed_encode_len()
    }
}

impl FixedEncodeLen for i16 {
    fn fixed_encode_len() -> (r: usize) {
        assert forall|v: i16| #[trigger] v.encoding().len() == 2 by {
            lemma_be_bytes_len(to_twos(v as int, 16), 2);
        }
        2
    }
}

impl Decode for i16 {
    type Error = Infallible;

    open spec fn decode_spec(src: Seq<u8>) -> (Result<i16, BufTooShortOr<Infallible>>, nat) {
        match be_decode_spec(src, 2) {
            (Ok(v), n) => (Ok(from_twos(v, 16) as i16), n),
            (Err(e), n) => (Err(e), n),
        }
    }

    fn decode<R: Read>(src: &mut R) -> (r: Result<i16, BufTooShortOr<Infallible>>) {
        match read_be::<R, 2>(src) {
            Ok(v) => {
                proof {
                    lemma_powers();
                    lemma_be_value_bound(old(src).contents().take(2));
                }
                if v < 0x8000 {
                    Ok(v as i16)
                } else {
                    Ok(-((0xffff - v) as i16) - 1)
                }
            },
            Err(e) => Err(e),
        }
    }
}

impl RoundTrip for i16 {
    proof fn lemma_round_trip(v: i16, rest: Seq<u8>) {
        lemma_powers();
        lemma_be_round_trip(to_twos(v as int, 16), 2);
        assert((v.encoding() + rest).take(2) =~= v.encoding());
    }
}

impl Encode for i32 {
    type Error = Infallible;

    open spec fn encoding(&self) -> Seq<u8> {
        be_bytes(to_twos(*self as int, 32), 4)
    }

    fn encode<W: Write>(&self, dst: &mut W) -> (r: Result<(), BufTooShortOr<Infallible>>) {
        proof {
            lemma_powers();
            lemma_be_bytes_len(to_twos(*self as int, 32), 4);
        }
        let v = *self;
        let pattern: u64 = if v >= 0 {
            v as u64
        } else {
            0xffffffff - (-(v + 1)) as u64
        };
        write_be::<W, 4>(dst, pattern)
    }
}

impl EncodeLen for i32 {
    fn encode_len(&self) -> (r: usize) {
        proof {
            lemma_be_bytes_len(to_twos(*self as int, 32), 4);
        }
        4
    }
}

impl FixedEncodeLenHint for i32 {
    fn min_encode_len() -> (r: usize) {
        Self::fixed_encode_len()
    }

    fn max_encode_len() -> (r: usize) {
        Self::fixed_encode_len()
    }
}

impl FixedEncodeLen for i32 {
    fn fixed_encode_len() -> (r: usize) {
        assert forall|v: i32| #[trigger] v.encoding().len() == 4 by {
            lemma_be_bytes_len(to_twos(v as int, 32), 4);
        }
        4
    }
}

impl Decode for i32 {
    type Error = Infallible;

    open spec fn decode_spec(src: Seq<u8>) -> (Result<i32, BufTooShortOr<Infallible>>, nat) {
        match be_decode_spec(src, 4) {
            (Ok(v), n) => (Ok(from_twos(v, 32) as i32), n),
            (Err(e), n) => (Err(e), n),
        }
    }

    fn decode<R: Read>(src: &mut R) -> (r: Result<i32, BufTooShortOr<Infallible>>) {
        match read_be::<R, 4>(src) {
            Ok(v) => {
                proof {
                    lemma_powers();
                    lemma_be_value_bound(old(src).contents().take(4));
                }
                if v < 0x80000000 {
                    Ok(v as i32)
                } else {
                    Ok(-((0xffffffff - v) as i32) - 1)
                }
            },
            Err(e) => Err(e),
        }
    }
}

impl RoundTrip for i32 {
    proof fn lemma_round_trip(v: i32, rest: Seq<u8>) {
        lemma_powers();
        lemma_be_round_trip(to_twos(v as int, 32), 4);
        assert((v.encoding() + rest).take(4) =~= v.encoding());
    }
}

impl Encode for i64 {
    type Error = Infallible;

    open spec fn encoding(&self) -> Seq<u8> {
        be_bytes(to_twos(*self as int, 64), 8)
    }

    fn encode<W: Write>(&self, dst: &mut W) -> (r: Result<(), BufTooShortOr<Infallible>>) {
        proof {
            lemma_powers();
            lemma_be_bytes_len(to_twos(*self as int, 64), 8);
        }
        let v = *self;
        let pattern: u64 = if v >= 0 {
            v as u64
        } else {
            0xffffffffffffffff - (-(v + 1)) as u64
        };
        write_be::<W, 8>(dst, pattern)
    }
}

impl EncodeLen for i64 {
    fn encode_len(&self) -> (r: usize) {
        proof {
            lemma_be_bytes_len(to_twos(*self as int, 64), 8);
        }
        8
    }
}

impl FixedEncodeLenHint for i64 {
    fn min_encode_len() -> (r: usize) {
        Self::fixed_encode_len()
    }

    fn max_encode_len() -> (r: usize) {
        Self::fixed_encode_len()
    }
}

impl FixedEncodeLen for i64 {
    fn fixed_encode_len() -> (r: usize) {
        assert forall|v: i64| #[trigger] v.encoding().len() == 8 by {
            lemma_be_bytes_len(to_twos(v as int, 64), 8);
        }
        8
    }
}

impl Decode for i64 {
    type Error = Infallible;

    open spec fn decode_spec(src: Seq<u8>) -> (Result<i64, BufTooShortOr<Infallible>>, nat) {
        match be_decode_spec(src, 8) {
            (Ok(v), n) => (Ok(from_twos(v, 64) as i64), n),
            (Err(e), n) => (Err(e), n),
        }
    }

    fn decode<R: Read>(src: &mut R) -> (r: Result<i64, BufTooShortOr<Infallible>>) {
        match read_be::<R, 8>(src) {
            Ok(v) => {
                proof {
                    lemma_powers();
                    lemma_be_value_bound(old(src).contents().take(8));
                }
                if v < 0x8000000000000000 {
                    Ok(v as i64)
                } else {
                    Ok(-((0xffffffffffffffff - v) as i64) - 1)
                }
            },
            Err(e) => Err(e),
        }
    }
}

impl RoundTrip for i64 {
    proof fn lemma_round_trip(v: i64, rest: Seq<u8>) {
        lemma_powers();
        lemma_be_round_trip(to_twos(v as int, 64), 8);
        assert((v.encoding() + rest).take(8) =~= v.encoding());
    }
}

/// The number of bytes of a platform-width integer.
pub open spec fn usize_bytes() -> nat {
    (usize::BITS / 8) as nat
}

proof fn lemma_usize_width()
    ensures
        usize::BITS == 32 || usize::BITS == 64,
        usize::MAX == pow(256, usize_bytes()) - 1,
        isize::MAX == pow(2, (usize::BITS - 1) as nat) - 1,
        isize::MIN == -pow(2, (usize::BITS - 1) as nat),
        pow(2, usize::BITS as nat) == pow(256, usize_bytes()),
{
    vstd::layout::unsigned_int_max_values();
    vstd::layout::signed_int_min_max_values();
    vstd::arithmetic::power2::lemma_pow2((usize::BITS - 1) as nat);
    vstd::arithmetic::power2::lemma_pow2(usize::BITS as nat);
    vstd::arithmetic::power2::lemma2_to64();
    vstd::arithmetic::power2::lemma2_to64_rest();
    lemma_powers();
}

impl Encode for usize {
    type Error = Infallible;

    open spec fn encoding(&self) -> Seq<u8> {
        be_bytes(*self as nat, usize_bytes())
    }

    fn encode<W: Write>(&self, dst: &mut W) -> (r: Result<(), BufTooShortOr<Infallible>>) {
        proof {
            lemma_usize_width();
            lemma_be_bytes_len(*self as nat, usize_bytes());
        }
        if usize::BITS == 64 {
            write_be::<W, 8>(dst, *self as u64)
        } else {
            write_be::<W, 4>(dst, *self as u64)
        }
    }
}

impl EncodeLen for usize {
    fn encode_len(&self) -> (r: usize) {
        Self::fixed_encode_len()
    }
}

impl FixedEncodeLenHint for usize {
    fn min_encode_len() -> (r: usize) {
        Self::fixed_encode_len()
    }

    fn max_encode_len() -> (r: usize) {
        Self::fixed_encode_len()
    }
}

impl FixedEncodeLen for usize {
    fn fixed_encode_len() -> (r: usize) {
        proof {
            lemma_usize_width();
        }
        assert forall|v: usize| #[trigger] v.encoding().len() == usize_bytes() by {
            lemma_be_bytes_len(v as nat, usize_bytes());
        }
        (usize::BITS / 8) as usize
    }
}

impl Decode for usize {
    type Error = Infallible;

    open spec fn decode_spec(src: Seq<u8>) -> (Result<usize, BufTooShortOr<Infallible>>, nat) {
        match be_decode_spec(src, usize_bytes()) {
            (Ok(v), n) => (Ok(v as usize), n),
            (Err(e), n) => (Err(e), n),
        }
    }

    fn decode<R: Read>(src: &mut R) -> (r: Result<usize, BufTooShortOr<Infallible>>) {
        proof {
            lemma_usize_width();
            lemma_be_value_bound(old(src).contents().take(usize_bytes() as int));
        }
        let r = if usize::BITS == 64 {
            read_be::<R, 8>(src)
        } else {
            read_be::<R, 4>(src)
        };
        match r {
            Ok(v) => Ok(v as usize),
            Err(e) => Err(e),
        }
    }
}

impl RoundTrip for usize {
    proof fn lemma_round_trip(v: usize, rest: Seq<u8>) {
        lemma_usize_width();
        lemma_be_round_trip(v as nat, usize_bytes());
        assert((v.encoding() + rest).take(usize_bytes() as int) =~= v.encoding());
    }
}

impl Encode for isize {
    type Error = Infallible;

    open spec fn encoding(&self) -> Seq<u8> {
        be_bytes(to_twos(*self as int, usize::BITS as nat), usize_bytes())
    }

    fn encode<W: Write>(&self, dst: &mut W) -> (r: Result<(), BufTooShortOr<Infallible>>) {
        proof {
            lemma_usize_width();
            lemma_be_bytes_len(to_twos(*self as int, usize::BITS as nat), usize_bytes());
        }
        let v = *self;
        if usize::BITS == 64 {
            let pattern: u64 = if v >= 0 {
                v as u64
            } else {
                0xffff_ffff_ffff_ffff - (-(v + 1)) as u64
            };
            write_be::<W, 8>(dst, pattern)
        } else {
            let pattern: u64 = if v >= 0 {
                v as u64
            } else {
                0xffff_ffff - (-(v + 1)) as u64
            };
            write_be::<W, 4>(dst, pattern)
        }
    }
}

impl EncodeLen for isize {
    fn encode_len(&self) -> (r: usize) {
        Self::fixed_encode_len()
    }
}

impl FixedEncodeLenHint for isize {
    fn min_encode_len() -> (r: usize) {
        Self::fixed_encode_len()
    }

    fn max_encode_len() -> (r: usize) {
        Self::fixed_encode_len()
    }
}

impl FixedEncodeLen for isize {
    fn fixed_encode_len() -> (r: usize) {
        proof {
            lemma_usize_width();
        }
        assert forall|v: isize| #[trigger] v.encoding().len() == usize_bytes() by {
            lemma_be_bytes_len(to_twos(v as int, usize::BITS as nat), usize_bytes());
        }
        (usize::BITS / 8) as usize
    }
}

impl Decode for isize {
    type Error = Infallible;

    open spec fn decode_spec(src: Seq<u8>) -> (Result<isize, BufTooShortOr<Infallible>>, nat) {
        match be_decode_spec(src, usize_bytes()) {
            (Ok(v), n) => (Ok(from_twos(v, usize::BITS as nat) as isize), n),
            (Err(e), n) => (Err(e), n),
        }
    }

    fn decode<R: Read>(src: &mut R) -> (r: Result<isize, BufTooShortOr<Infallible>>) {
        proof {
            lemma_usize_width();
            lemma_be_value_bound(old(src).contents().take(usize_bytes() as int));
        }
        if usize::BITS == 64 {
            match read_be::<R, 8>(src) {
                Ok(v) => if v < 0x8000_0000_0000_0000 {
                    Ok(v as isize)
                } else {
                    Ok(-((0xffff_ffff_ffff_ffff - v) as isize) - 1)
                },
                Err(e) => Err(e),
            }
        } else {
            match read_be::<R, 4>(src) {
                Ok(v) => if v < 0x8000_0000 {
                    Ok(v as isize)
                } else {
                    Ok(-((0xffff_ffff - v) as isize) - 1)
                },
                Err(e) => Err(e),
            }
        }
    }
}

impl RoundTrip for isize {
    proof fn lemma_round_trip(v: isize, rest: Seq<u8>) {
        lemma_usize_width();
        lemma_be_round_trip(to_twos(v as int, usize::BITS as nat), usize_bytes());
        assert((v.encoding() + rest).take(usize_bytes() as int) =~= v.encoding());
    }
}

impl Encode for bool {
    type Error = Infallible;

    open spec fn encoding(&self) -> Seq<u8> {
        seq![if *self { 1u8 } else { 0u8 }]
    }

    fn encode<W: Write>(&self, dst: &mut W) -> (r: Result<(), BufTooShortOr<Infallible>>) {
        let b: u8 = if *self {
            1
        } else {
            0
        };
        let r = crate::write::WriteValue::write(dst, &b);
        proof {
            assert(be_bytes(b as nat, 1) == be_bytes(b as nat / 256, 0).push((b as nat % 256) as u8));
            assert(b.encoding() =~= self.encoding());
        }
        r
    }
}

impl EncodeLen for bool {
    fn encode_len(&self) -> (r: usize) {
        1
    }
}

impl FixedEncodeLenHint for bool {
    fn min_encode_len() -> (r: usize) {
        1
    }

    fn max_encode_len() -> (r: usize) {
        1
    }
}

impl FixedEncodeLen for bool {
    fn fixed_encode_len() -> (r: usize) {
        1
    }
}

impl Decode for bool {
    type Error = InvalidValue;

    /// One byte: 0 is `false`, 1 is `true`, any other is invalid.
    open spec fn decode_spec(src: Seq<u8>) -> (Result<bool, BufTooShortOr<InvalidValue>>, nat) {
        if src.len() == 0 {
            (Err(BufTooShortOr::TooShort), 0)
        } else if src[0] == 0 {
            (Ok(false), 1)
        } else if src[0] == 1 {
            (Ok(true), 1)
        } else {
            (Err(BufTooShortOr::Or(invalid_value())), 1)
        }
    }

    fn decode<R: Read>(src: &mut R) -> (r: Result<bool, BufTooShortOr<InvalidValue>>) {
        match src.read_exact::<1>() {
            Ok(a) => {
                if a[0] == 0 {
                    Ok(false)
                } else if a[0] == 1 {
                    Ok(true)
                } else {
                    Err(BufTooShortOr::Or(InvalidValue(())))
                }
            },
            Err(_) => {
                assert(old(src).contents().skip(0) =~= old(src).contents());
                Err(BufTooShortOr::TooShort)
            },
        }
    }
}

impl RoundTrip for bool {
    proof fn lemma_round_trip(v: bool, rest: Seq<u8>) {
        assert((v.encoding() + rest)[0] == v.encoding()[0]);
    }
}

impl Encode for () {
    type Error = Infallible;

    open spec fn encoding(&self) -> Seq<u8> {
        Seq::empty()
    }

    fn encode<W: Write>(&self, dst: &mut W) -> (r: Result<(), BufTooShortOr<Infallible>>) {
        assert(dst.written() + Seq::<u8>::empty() =~= dst.written());
        Ok(())
    }
}

impl EncodeLen for () {
    fn encode_len(&self) -> (r: usize) {
        0
    }
}

impl FixedEncodeLenHint for () {
    fn min_encode_len() -> (r: usize) {
        0
    }

    fn max_encode_len() -> (r: usize) {
        0
    }
}

impl FixedEncodeLen for () {
    fn fixed_encode_len() -> (r: usize) {
        0
    }
}

impl Decode for () {
    type Error = Infallible;

    open spec fn decode_spec(src: Seq<u8>) -> (Result<(), BufTooShortOr<Infallible>>, nat) {
        (Ok(()), 0)
    }

    fn decode<R: Read>(src: &mut R) -> (r: Result<(), BufTooShortOr<Infallible>>) {
        assert(src.contents().skip(0) =~= src.contents());
        Ok(())
    }
}

impl RoundTrip for () {
    proof fn lemma_round_trip(v: (), rest: Seq<u8>) {
    }
}

impl<T> Encode for PhantomData<T> {
    type Error = Infallible;

    open spec fn encoding(&self) -> Seq<u8> {
        Seq::empty()
    }

    fn encode<W: Write>(&self, dst: &mut W) -> (r: Result<(), BufTooShortOr<Infallible>>) {
        assert(dst.written() + Seq::<u8>::empty() =~= dst.written());
        Ok(())
    }
}

impl<T> EncodeLen for PhantomData<T> {
    fn encode_len(&self) -> (r: usize) {
        0
    }
}

impl<T> FixedEncodeLenHint for PhantomData<T> {
    fn min_encode_len() -> (r: usize) {
        0
    }

    fn max_encode_len() -> (r: usize) {
        0
    }
}

impl<T> FixedEncodeLen for PhantomData<T> {
    fn fixed_encode_len() -> (r: usize) {
        0
    }
}

impl<T> Decode for PhantomData<T> {
    type Error = Infallible;

    open spec fn decode_spec(src: Seq<u8>) -> (Result<PhantomData<T>, BufTooShortOr<Infallible>>, nat) {
        (Ok(PhantomData), 0)
    }

    fn decode<R: Read>(src: &mut R) -> (r: Result<PhantomData<T>, BufTooShortOr<Infallible>>) {
        assert(src.contents().skip(0) =~= src.contents());
        Ok(PhantomData)
    }
}

impl<T> RoundTrip for PhantomData<T> {
    proof fn lemma_round_trip(v: PhantomData<T>, rest: Seq<u8>) {
    }
}

} // verus!
