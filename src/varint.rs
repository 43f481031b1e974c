//! Variable-length integers: 7-bit groups, least significant first, with
//! bit 7 of each byte set when more groups follow. Signed values are
//! zigzag-mapped onto unsigned ones first.

use crate::error::BufTooShortOr;
use crate::prim::{be_value, lemma_u8_encoding};
use crate::read::{Decode, Read, ReadValue, RoundTrip};
use crate::write::{Encode, EncodeLen, FixedEncodeLenHint, Write, WriteValue};
use core::convert::Infallible;
use vstd::arithmetic::power2::{lemma2_to64, lemma2_to64_rest, lemma_pow2_adds, lemma_pow2_strictly_increases, pow2};
use vstd::bits::lemma_u64_shl_is_mul;
use vstd::prelude::*;

verus! {

/// An integer that is encoded in a variable number of bytes.
#[derive(Debug, Clone, Copy, PartialEq, Eq, PartialOrd, Ord, Hash)]
pub struct VarInt<T>(pub T);

/// A varint held more continuation bytes than its type has room for.
///
/// Decoding a `VarInt<u32>` that reads five bytes, all with bit 7 set, has
/// read 35 bits and is still not done, so it stops with this error.
#[derive(Debug, Clone, Copy, PartialEq, Eq, Hash)]
pub struct VarIntTooLarge;

impl crate::error::BufError for VarIntTooLarge {

}

/// The number of 7-bit groups needed for `n`: at least one.
pub open spec fn varint_len(n: nat) -> nat
    decreases n,
{
    if n < 128 {
        1
    } else {
        1 + varint_len(n / 128)
    }
}

/// The varint bytes of `n`.
pub open spec fn varint_bytes(n: nat) -> Seq<u8>
    decreases n,
{
    if n < 128 {
        seq![n as u8]
    } else {
        seq![(n % 128 + 128) as u8] + varint_bytes(n / 128)
    }
}

/// What decoding a varint of at most `max` groups from the front of `src`
/// gives, and how many bytes that consumes: the number that its groups
/// spell, before it is cut to the width of the target; a too-short error
/// where `src` ends first; a too-large error after `max` bytes that all have
/// bit 7 set.
pub open spec fn varint_scan(src: Seq<u8>, max: nat) -> (
    Result<nat, BufTooShortOr<VarIntTooLarge>>,
    nat,
)
    decreases max,
{
    if max == 0 {
        (Err(BufTooShortOr::Or(VarIntTooLarge)), 0)
    } else if src.len() == 0 {
        (Err(BufTooShortOr::TooShort), 0)
    } else if src[0] < 128 {
        (Ok(src[0] as nat), 1)
    } else {
        match varint_scan(src.drop_first(), (max - 1) as nat) {
            (Ok(v), n) => (Ok(((src[0] - 128) + 128 * v) as nat), n + 1),
            (Err(e), n) => (Err(e), n + 1),
        }
    }
}

/// The zigzag mapping: 0, -1, 1, -2, 2, ... to 0, 1, 2, 3, 4, ...
pub open spec fn zigzag(v: int) -> nat {
    if v >= 0 {
        (2 * v) as nat
    } else {
        (-2 * v - 1) as nat
    }
}

/// The inverse of [`zigzag`].
pub open spec fn unzigzag(u: nat) -> int {
    if u % 2 == 0 {
        (u / 2) as int
    } else {
        -((u / 2) as int) - 1
    }
}

/// The payloads of the first `k` bytes of `s`, least significant first.
spec fn low_groups(s: Seq<u8>, k: nat) -> nat
    decreases k,
{
    if k == 0 || s.len() == 0 {
        0
    } else {
        (s[0] % 128) as nat + 128 * low_groups(s.drop_first(), (k - 1) as nat)
    }
}

proof fn lemma_low_groups_step(s: Seq<u8>, k: nat)
    requires
        k < s.len(),
    ensures
        low_groups(s, k + 1) == low_groups(s, k) + pow2(7 * k) * (s[k as int] % 128) as nat,
        low_groups(s, k + 1) < pow2(7 * (k + 1)),
    decreases k,
{
    lemma2_to64();
    lemma_pow2_adds(7, 7 * k);
    if k == 0 {
        assert(low_groups(s.drop_first(), 0) == 0);
    } else {
        lemma_low_groups_step(s.drop_first(), (k - 1) as nat);
        assert(s.drop_first()[k - 1] == s[k as int]);
        lemma_pow2_adds(7, (7 * (k - 1)) as nat);
        let a = low_groups(s.drop_first(), (k - 1) as nat);
        let p = pow2((7 * (k - 1)) as nat);
        let g = (s[k as int] % 128) as nat;
        let g0 = (s[0] % 128) as nat;
        assert(g0 + 128 * (a + p * g) == (g0 + 128 * a) + (128 * p) * g) by (nonlinear_arith);
        assert(g0 + 128 * (a + p * g) < 128 * pow2(7 * k)) by (nonlinear_arith)
            requires
                a + p * g < pow2(7 * k),
                g0 < 128,
        ;
    }
}

proof fn lemma_scan_prefix(s: Seq<u8>, max: nat, k: nat)
    requires
        k <= max,
        k <= s.len(),
        forall|j: int| 0 <= j < k ==> s[j] >= 128,
    ensures
        varint_scan(s, max).1 == varint_scan(s.skip(k as int), (max - k) as nat).1 + k,
        varint_scan(s.skip(k as int), (max - k) as nat).0 matches Ok(v) ==> varint_scan(s, max).0
            == Ok::<nat, BufTooShortOr<VarIntTooLarge>>(low_groups(s, k) + pow2(7 * k) * v),
        varint_scan(s.skip(k as int), (max - k) as nat).0 is Err ==> varint_scan(s, max).0
            == varint_scan(s.skip(k as int), (max - k) as nat).0,
    decreases k,
{
    if k == 0 {
        assert(s.skip(0) =~= s);
        lemma2_to64();
        assert(low_groups(s, 0) == 0);
        assert(pow2(7 * k) == 1);
        if let (Ok(v), _) = varint_scan(s, max) {
            assert(pow2(7 * k) * v == v) by (nonlinear_arith)
                requires
                    pow2(7 * k) == 1,
            ;
        }
    } else {
        let t = s.drop_first();
        assert forall|j: int| 0 <= j < k - 1 implies t[j] >= 128 by {
            assert(t[j] == s[j + 1]);
        }
        lemma_scan_prefix(t, (max - 1) as nat, (k - 1) as nat);
        assert(t.skip(k - 1) =~= s.skip(k as int));
        assert(7 + 7 * (k - 1) == 7 * k) by (nonlinear_arith)
            requires
                k > 0,
        ;
        lemma2_to64();
        lemma_pow2_adds(7, (7 * (k - 1)) as nat);
        assert(low_groups(s, k) == (s[0] % 128) as nat + 128 * low_groups(t, (k - 1) as nat));
        assert(s[0] % 128 == s[0] - 128);
        if let (Ok(v), _) = varint_scan(s.skip(k as int), (max - k) as nat) {
            let a = low_groups(t, (k - 1) as nat);
            let p = pow2((7 * (k - 1)) as nat);
            let g0 = (s[0] - 128) as nat;
            assert(varint_scan(t, (max - 1) as nat).0 == Ok::<nat, BufTooShortOr<VarIntTooLarge>>(
                a + p * v,
            ));
            assert(g0 + 128 * (a + p * v) == (g0 + 128 * a) + (128 * p) * v) by (nonlinear_arith);
            assert(pow2(7 * k) == 128 * p);
            assert(varint_scan(s, max).0 == Ok::<nat, BufTooShortOr<VarIntTooLarge>>(
                g0 + 128 * (a + p * v),
            ));
            assert(low_groups(s, k) == g0 + 128 * a);
            assert(low_groups(s, k) + pow2(7 * k) * v == g0 + 128 * (a + p * v));
        }
    }
}

/// A run of at least `max` bytes that all have bit 7 set is too large for a
/// varint of `max` groups, and decoding it consumes exactly `max` bytes,
/// however many follow.
pub proof fn lemma_overlong_rejected(src: Seq<u8>, max: nat)
    requires
        src.len() >= max,
        forall|j: int| 0 <= j < max ==> src[j] >= 128,
    ensures
        varint_scan(src, max) == (
        Err::<nat, BufTooShortOr<VarIntTooLarge>>(BufTooShortOr::Or(VarIntTooLarge)),
        max,
        ),
{
    lemma_scan_prefix(src, max, max);
}

/// A shift left by `k` of a 7-bit group, onto bits below `k`.
proof fn lemma_or_shift(v: u64, g: u64, k: u64)
    requires
        k <= 63,
        k % 7 == 0,
        g < 128,
        v < pow2(k as nat),
    ensures
        (v | (g << k)) as nat == (v + g * pow2(k as nat)) % 0x1_0000_0000_0000_0000,
{
    lemma2_to64();
    lemma2_to64_rest();
    vstd::bits::lemma_u64_pow2_no_overflow(k as nat);
    lemma_u64_shl_is_mul(1, k);
    assert(v < (1u64 << k));
    assert((v | (g << k)) == v + (g << k)) by (bit_vector)
        requires
            k <= 63,
            g < 128,
            v < (1u64 << k),
    ;
    if k <= 56 {
        if k < 56 {
            lemma_pow2_strictly_increases(k as nat, 56);
        }
        assert(g * pow2(k as nat) < 0x8000_0000_0000_0000) by (nonlinear_arith)
            requires
                g < 128,
                pow2(k as nat) <= 0x100_0000_0000_0000,
        ;
        lemma_u64_shl_is_mul(g, k);
    } else {
        assert(k == 63);
        assert(g << k == (g & 1) << k) by (bit_vector)
            requires
                k == 63,
        ;
        assert((g & 1) == g % 2) by (bit_vector);
        lemma_u64_shl_is_mul(g & 1, k);
        let h = (g % 2) as nat;
        assert((v + g * 0x8000_0000_0000_0000) % 0x1_0000_0000_0000_0000 == v + h
            * 0x8000_0000_0000_0000) by (nonlinear_arith)
            requires
                v < 0x8000_0000_0000_0000,
                h == g % 2,
                g < 128,
        ;
    }
}

/// Decodes a varint of at most `max` groups, keeping the low 64 bits of
/// the number it spells.
fn decode_groups<R: Read>(src: &mut R, max: usize) -> (r: Result<u64, BufTooShortOr<VarIntTooLarge>>)
    requires
        1 <= max <= 10,
    ensures
        varint_scan(old(src).contents(), max as nat).1 <= old(src).contents().len(),
        final(src).contents() == old(src).contents().skip(
            varint_scan(old(src).contents(), max as nat).1 as int,
        ),
        r matches Ok(v) ==> varint_scan(old(src).contents(), max as nat).0 matches Ok(n) && v as nat
            == n % 0x1_0000_0000_0000_0000,
        r matches Err(e) ==> varint_scan(old(src).contents(), max as nat).0 == Err::<
            nat,
            BufTooShortOr<VarIntTooLarge>,
        >(e),
{
    let ghost s0 = src.contents();
    let mut value: u64 = 0;
    let mut shift: usize = 0;
    proof {
        assert(s0.skip(0) =~= s0);
        vstd::arithmetic::power2::lemma_pow2(0);
        vstd::arithmetic::power::lemma_pow0(2);
    }
    while shift < max
        invariant
            s0 == old(src).contents(),
            1 <= max <= 10,
            shift <= max,
            shift <= s0.len(),
            src.contents() == s0.skip(shift as int),
            forall|j: int| 0 <= j < shift ==> s0[j] >= 128,
            shift <= 9 ==> value as nat == low_groups(s0, shift as nat),
            shift <= 9 ==> value < pow2(7 * shift as nat),
        decreases max - shift,
    {
        let byte: u8 = match src.read::<u8>() {
            Ok(b) => b,
            Err(_) => {
                proof {
                    assert(src.contents() =~= s0.skip(shift as int));
                    assert(s0.skip(shift as int).len() == 0);
                    assert(varint_scan(s0.skip(shift as int), (max - shift) as nat).1 == 0);
                    lemma_scan_prefix(s0, max as nat, shift as nat);
                }
                return Err(BufTooShortOr::TooShort);
            },
        };
        proof {
            let c = s0.skip(shift as int);
            assert(c.take(1).drop_last() =~= Seq::<u8>::empty());
            assert(be_value(c.take(1).drop_last()) == 0);
            assert(be_value(c.take(1)) == c[0] as nat);
            assert(src.contents() =~= s0.skip(shift + 1));
        }
        let without_msb = byte & 0x7f;
        assert(without_msb == byte % 128) by (bit_vector)
            requires
                without_msb == byte & 0x7f,
        ;
        let shifted = (without_msb as u64) << (shift * 7) as u64;
        let ghost before = value;
        value = value | shifted;
        proof {
            lemma_or_shift(before, without_msb as u64, (shift * 7) as u64);
            lemma_low_groups_step(s0, shift as nat);
            lemma2_to64_rest();
            if shift < 9 {
                lemma_pow2_strictly_increases((7 * (shift + 1)) as nat, 64);
                assert(7 * (shift + 1) < 64);
            }
            assert(pow2(7 * shift as nat) * (without_msb as nat) == (without_msb as nat) * pow2(7 * shift as nat)) by (nonlinear_arith);
        }
        if byte & 0x80 == 0 {
            proof {
                assert(byte & 0x80 == 0 ==> byte < 128) by (bit_vector);
                lemma_scan_prefix(s0, max as nat, shift as nat);
                assert(s0.skip(shift as int)[0] == byte);
                assert(varint_scan(s0.skip(shift as int), (max - shift) as nat) == (
                Ok::<nat, BufTooShortOr<VarIntTooLarge>>(byte as nat),
                1nat,
                ));
                assert(src.contents() =~= s0.skip(shift + 1));
            }
            return Ok(value);
        }
        proof {
            assert(byte & 0x80 != 0 ==> byte >= 128) by (bit_vector);
        }
        shift = shift + 1;
    }
    proof {
        lemma_scan_prefix(s0, max as nat, max as nat);
    }
    Err(BufTooShortOr::Or(VarIntTooLarge))
}

/// `varint_bytes(n)` has `varint_len(n)` bytes, and a varint of at most
/// `max` groups reads it back, whatever follows it.
proof fn lemma_varint_round_trip(n: nat, rest: Seq<u8>, max: nat)
    requires
        varint_len(n) <= max,
    ensures
        varint_bytes(n).len() == varint_len(n),
        varint_scan(varint_bytes(n) + rest, max) == (
        Ok::<nat, BufTooShortOr<VarIntTooLarge>>(n),
        varint_len(n),
        ),
    decreases n,
{
    let s = varint_bytes(n) + rest;
    if n >= 128 {
        lemma_varint_round_trip(n / 128, rest, (max - 1) as nat);
        assert(s.drop_first() =~= varint_bytes(n / 128) + rest);
        assert(n == n % 128 + 128 * (n / 128));
    }
}

/// A number below `2^(7 m)` takes at most `m` groups.
proof fn lemma_groups_below(n: nat, m: nat)
    requires
        m >= 1,
        n < pow2(7 * m),
    ensures
        1 <= varint_len(n) <= m,
    decreases n,
{
    if n >= 128 {
        lemma2_to64();
        assert(m >= 2) by {
            if m == 1 {
                assert(pow2(7) == 128);
            }
        }
        lemma_pow2_adds(7, (7 * (m - 1)) as nat);
        assert(7 + 7 * (m - 1) == 7 * m) by (nonlinear_arith)
            requires
                m >= 1,
        ;
        let p = pow2((7 * (m - 1)) as nat);
        assert(n / 128 < p) by (nonlinear_arith)
            requires
                n < 128 * p,
        ;
        lemma_groups_below(n / 128, (m - 1) as nat);
    }
}

/// Writes the varint bytes of `v`.
fn encode_groups<W: Write>(dst: &mut W, v: u64) -> (r: Result<(), BufTooShortOr<Infallible>>)
    ensures
        r is Ok <==> varint_bytes(v as nat).len() <= old(dst).room(),
        r is Ok ==> final(dst).written() == old(dst).written() + varint_bytes(v as nat)
            && final(dst).room() == old(dst).room() - varint_bytes(v as nat).len(),
        r is Err ==> r matches Err(BufTooShortOr::TooShort),
{
    let mut n: u64 = v;
    let ghost done: Seq<u8> = Seq::empty();
    while n >= 0x80
        invariant
            done + varint_bytes(n as nat) == varint_bytes(v as nat),
            dst.written() == old(dst).written() + done,
            dst.room() + done.len() == old(dst).room(),
        decreases n,
    {
        let b: u8 = 0x80 | (n & 0x7f) as u8;
        assert(b == (n % 128 + 128) as u8 && n >> 7 == n / 128) by (bit_vector)
            requires
                b == 0x80 | (n & 0x7f) as u8,
        ;
        proof {
            lemma_u8_encoding(b);
        }
        match dst.write(&b) {
            Ok(()) => {},
            Err(_) => {
                return Err(BufTooShortOr::TooShort);
            },
        }
        proof {
            assert(varint_bytes(n as nat) == seq![b] + varint_bytes((n / 128) as nat));
            done = done.push(b);
            assert(done + varint_bytes((n / 128) as nat) =~= varint_bytes(v as nat));
        }
        n = n >> 7;
    }
    let last = n as u8;
    proof {
        lemma_u8_encoding(last);
        assert(varint_bytes(n as nat) == seq![last]);
        assert(done + seq![last] == varint_bytes(v as nat));
    }
    match dst.write(&last) {
        Ok(()) => Ok(()),
        Err(_) => Err(BufTooShortOr::TooShort),
    }
}

/// The number of varint bytes of `v`.
fn groups_len(v: u64) -> (r: usize)
    ensures
        r == varint_len(v as nat),
        1 <= r <= 10,
{
    proof {
        lemma2_to64_rest();
        lemma_pow2_adds(64, 6);
        lemma2_to64();
        lemma_groups_below(v as nat, 10);
    }
    let mut n: u64 = v;
    let mut len: usize = 0;
    while n > 0
        invariant
            (v == 0 && len == 0 && n == 0) || (v > 0 && (n == 0 ==> len == varint_len(v as nat)) && (
            n > 0 ==> len + varint_len(n as nat) == varint_len(v as nat))),
            varint_len(v as nat) <= 10,
        decreases n,
    {
        assert(n >> 7 == n / 128) by (bit_vector);
        len = len + 1;
        n = n >> 7;
    }
    if len == 0 {
        1
    } else {
        len
    }
}

/// Maps a signed value onto an unsigned one with [`zigzag`].
fn zigzag_encode(v: i64) -> (r: u64)
    ensures
        r as nat == zigzag(v as int),
{
    if v >= 0 {
        (v as u64) * 2
    } else {
        ((-(v + 1)) as u64) * 2 + 1
    }
}

/// Maps an unsigned value back onto a signed one with [`unzigzag`].
fn zigzag_decode(u: u64) -> (r: i64)
    ensures
        r as int == unzigzag(u as nat),
{
    if u % 2 == 0 {
        (u / 2) as i64
    } else {
        -((u / 2) as i64) - 1
    }
}

proof fn lemma_varint_bytes_len(n: nat)
    ensures
        varint_bytes(n).len() == varint_len(n),
        varint_len(n) >= 1,
    decreases n,
{
    if n >= 128 {
        lemma_varint_bytes_len(n / 128);
    }
}

/// A number of `bits` bits takes at least one and at most `ceil(bits / 7)`
/// groups, and its varint bytes are that many.
pub proof fn lemma_varint_len_bounds(n: nat, bits: nat)
    requires
        bits >= 1,
        n < pow2(bits),
    ensures
        1 <= varint_len(n) <= (bits + 6) / 7,
        varint_bytes(n).len() == varint_len(n),
{
    let m = ((bits + 6) / 7) as nat;
    assert(bits <= 7 * m);
    lemma_width_groups(n, bits, m);
}

/// A number of `bits` bits takes at most `m` groups when `bits <= 7 m`.
proof fn lemma_width_groups(n: nat, bits: nat, m: nat)
    requires
        n < pow2(bits),
        bits <= 7 * m,
        m >= 1,
    ensures
        1 <= varint_len(n) <= m,
        varint_bytes(n).len() == varint_len(n),
{
    if bits < 7 * m {
        lemma_pow2_strictly_increases(bits, 7 * m);
    }
    lemma_groups_below(n, m);
    lemma_varint_bytes_len(n);
}

proof fn lemma_widths()
    ensures
        pow2(8) == 0x100,
        pow2(16) == 0x10000,
        pow2(32) == 0x1_0000_0000,
        pow2(64) == 0x1_0000_0000_0000_0000,
{
    lemma2_to64();
    lemma2_to64_rest();
}

impl Encode for VarInt<u8> {
    type Error = Infallible;

    open spec fn encoding(&self) -> Seq<u8> {
        varint_bytes(self.0 as nat)
    }

    fn encode<W: Write>(&self, dst: &mut W) -> (r: Result<(), BufTooShortOr<Infallible>>) {
        encode_groups(dst, self.0 as u64)
    }
}

impl EncodeLen for VarInt<u8> {
    fn encode_len(&self) -> (r: usize) {
        proof {
            lemma_varint_bytes_len(self.0 as nat);
        }
        groups_len(self.0 as u64)
    }
}

impl FixedEncodeLenHint for VarInt<u8> {
    fn min_encode_len() -> (r: usize)
        ensures
            r == 1,
    {
        assert forall|v: VarInt<u8>| 1 <= #[trigger] v.encoding().len() by {
            lemma_varint_bytes_len(v.0 as nat);
        }
        1
    }

    fn max_encode_len() -> (r: usize)
        ensures
            r == 2,
    {
        assert forall|v: VarInt<u8>| #[trigger] v.encoding().len() <= 2 by {
            lemma_widths();
            lemma_width_groups(v.0 as nat, 8, 2);
        }
        2
    }
}

impl Decode for VarInt<u8> {
    type Error = VarIntTooLarge;

    open spec fn decode_spec(src: Seq<u8>) -> (Result<VarInt<u8>, BufTooShortOr<VarIntTooLarge>>, nat) {
        match varint_scan(src, 2) {
            (Ok(v), n) => (Ok(VarInt((v % 0x100) as u8)), n),
            (Err(e), n) => (Err(e), n),
        }
    }

    fn decode<R: Read>(src: &mut R) -> (r: Result<VarInt<u8>, BufTooShortOr<VarIntTooLarge>>) {
        match decode_groups(src, 2) {
            Ok(v) => {
                proof {
                    if let (Ok(n), _) = varint_scan(old(src).contents(), 2) {
                        vstd::arithmetic::div_mod::lemma_mod_mod(n as int, 0x100, 0x100000000000000);
                    }
                }
                Ok(VarInt((v % 0x100) as u8))
            },
            Err(e) => Err(e),
        }
    }
}

impl RoundTrip for VarInt<u8> {
    proof fn lemma_round_trip(v: VarInt<u8>, rest: Seq<u8>) {
        lemma_widths();
        lemma_width_groups(v.0 as nat, 8, 2);
        lemma_varint_round_trip(v.0 as nat, rest, 2);
    }
}

impl Encode for VarInt<u16> {
    type Error = Infallible;

    open spec fn encoding(&self) -> Seq<u8> {
        varint_bytes(self.0 as nat)
    }

    fn encode<W: Write>(&self, dst: &mut W) -> (r: Result<(), BufTooShortOr<Infallible>>) {
        encode_groups(dst, self.0 as u64)
    }
}

impl EncodeLen for VarInt<u16> {
    fn encode_len(&self) -> (r: usize) {
        proof {
            lemma_varint_bytes_len(self.0 as nat);
        }
        groups_len(self.0 as u64)
    }
}

impl FixedEncodeLenHint for VarInt<u16> {
    fn min_encode_len() -> (r: usize)
        ensures
            r == 1,
    {
        assert forall|v: VarInt<u16>| 1 <= #[trigger] v.encoding().len() by {
            lemma_varint_bytes_len(v.0 as nat);
        }
        1
    }

    fn max_encode_len() -> (r: usize)
        ensures
            r == 3,
    {
        assert forall|v: VarInt<u16>| #[trigger] v.encoding().len() <= 3 by {
            lemma_widths();
            lemma_width_groups(v.0 as nat, 16, 3);
        }
        3
    }
}

impl Decode for VarInt<u16> {
    type Error = VarIntTooLarge;

    open spec fn decode_spec(src: Seq<u8>) -> (Result<VarInt<u16>, BufTooShortOr<VarIntTooLarge>>, nat) {
        match varint_scan(src, 3) {
            (Ok(v), n) => (Ok(VarInt((v % 0x10000) as u16)), n),
            (Err(e), n) => (Err(e), n),
        }
    }

    fn decode<R: Read>(src: &mut R) -> (r: Result<VarInt<u16>, BufTooShortOr<VarIntTooLarge>>) {
        match decode_groups(src, 3) {
            Ok(v) => {
                proof {
                    if let (Ok(n), _) = varint_scan(old(src).contents(), 3) {
                        vstd::arithmetic::div_mod::lemma_mod_mod(n as int, 0x10000, 0x1000000000000);
                    }
                }
                Ok(VarInt((v % 0x10000) as u16))
            },
            Err(e) => Err(e),
        }
    }
}

impl RoundTrip for VarInt<u16> {
    proof fn lemma_round_trip(v: VarInt<u16>, rest: Seq<u8>) {
        lemma_widths();
        lemma_width_groups(v.0 as nat, 16, 3);
        lemma_varint_round_trip(v.0 as nat, rest, 3);
    }
}

impl Encode for VarInt<u32> {
    type Error = Infallible;

    open spec fn encoding(&self) -> Seq<u8> {
        varint_bytes(self.0 as nat)
    }

    fn encode<W: Write>(&self, dst: &mut W) -> (r: Result<(), BufTooShortOr<Infallible>>) {
        encode_groups(dst, self.0 as u64)
    }
}

impl EncodeLen for VarInt<u32> {
    fn encode_len(&self) -> (r: usize) {
        proof {
            lemma_varint_bytes_len(self.0 as nat);
        }
        groups_len(self.0 as u64)
    }
}

impl FixedEncodeLenHint for VarInt<u32> {
    fn min_encode_len() -> (r: usize)
        ensures
            r == 1,
    {
        assert forall|v: VarInt<u32>| 1 <= #[trigger] v.encoding().len() by {
            lemma_varint_bytes_len(v.0 as nat);
        }
        1
    }

    fn max_encode_len() -> (r: usize)
        ensures
            r == 5,
    {
        assert forall|v: VarInt<u32>| #[trigger] v.encoding().len() <= 5 by {
            lemma_widths();
            lemma_width_groups(v.0 as nat, 32, 5);
        }
        5
    }
}

impl Decode for VarInt<u32> {
    type Error = VarIntTooLarge;

    open spec fn decode_spec(src: Seq<u8>) -> (Result<VarInt<u32>, BufTooShortOr<VarIntTooLarge>>, nat) {
        match varint_scan(src, 5) {
            (Ok(v), n) => (Ok(VarInt((v % 0x100000000) as u32)), n),
            (Err(e), n) => (Err(e), n),
        }
    }

    fn decode<R: Read>(src: &mut R) -> (r: Result<VarInt<u32>, BufTooShortOr<VarIntTooLarge>>) {
        match decode_groups(src, 5) {
            Ok(v) => {
                proof {
                    if let (Ok(n), _) = varint_scan(old(src).contents(), 5) {
                        vstd::arithmetic::div_mod::lemma_mod_mod(n as int, 0x100000000, 0x100000000);
                    }
                }
                Ok(VarInt((v % 0x100000000) as u32))
            },
            Err(e) => Err(e),
        }
    }
}

impl RoundTrip for VarInt<u32> {
    proof fn lemma_round_trip(v: VarInt<u32>, rest: Seq<u8>) {
        lemma_widths();
        lemma_width_groups(v.0 as nat, 32, 5);
        lemma_varint_round_trip(v.0 as nat, rest, 5);
    }
}

impl Encode for VarInt<u64> {
    type Error = Infallible;

    open spec fn encoding(&self) -> Seq<u8> {
        varint_bytes(self.0 as nat)
    }

    fn encode<W: Write>(&self, dst: &mut W) -> (r: Result<(), BufTooShortOr<Infallible>>) {
        encode_groups(dst, self.0 as u64)
    }
}

impl EncodeLen for VarInt<u64> {
    fn encode_len(&self) -> (r: usize) {
        proof {
            lemma_varint_bytes_len(self.0 as nat);
        }
        groups_len(self.0 as u64)
    }
}

impl FixedEncodeLenHint for VarInt<u64> {
    fn min_encode_len() -> (r: usize)
        ensures
            r == 1,
    {
        assert forall|v: VarInt<u64>| 1 <= #[trigger] v.encoding().len() by {
            lemma_varint_bytes_len(v.0 as nat);
        }
        1
    }

    fn max_encode_len() -> (r: usize)
        ensures
            r == 10,
    {
        assert forall|v: VarInt<u64>| #[trigger] v.encoding().len() <= 10 by {
            lemma_widths();
            lemma_width_groups(v.0 as nat, 64, 10);
        }
        10
    }
}

impl Decode for VarInt<u64> {
    type Error = VarIntTooLarge;

    open spec fn decode_spec(src: Seq<u8>) -> (Result<VarInt<u64>, BufTooShortOr<VarIntTooLarge>>, nat) {
        match varint_scan(src, 10) {
            (Ok(v), n) => (Ok(VarInt((v % 0x10000000000000000) as u64)), n),
            (Err(e), n) => (Err(e), n),
        }
    }

    fn decode<R: Read>(src: &mut R) -> (r: Result<VarInt<u64>, BufTooShortOr<VarIntTooLarge>>) {
        match decode_groups(src, 10) {
            Ok(v) => {
                proof {
                    if let (Ok(n), _) = varint_scan(old(src).contents(), 10) {
                        vstd::arithmetic::div_mod::lemma_mod_mod(n as int, 0x10000000000000000, 0x1);
                    }
                }
                Ok(VarInt(v))
            },
            Err(e) => Err(e),
        }
    }
}

impl RoundTrip for VarInt<u64> {
    proof fn lemma_round_trip(v: VarInt<u64>, rest: Seq<u8>) {
        lemma_widths();
        lemma_width_groups(v.0 as nat, 64, 10);
        lemma_varint_round_trip(v.0 as nat, rest, 10);
    }
}

impl Encode for VarInt<i8> {
    type Error = Infallible;

    open spec fn encoding(&self) -> Seq<u8> {
        varint_bytes(zigzag(self.0 as int))
    }

    fn encode<W: Write>(&self, dst: &mut W) -> (r: Result<(), BufTooShortOr<Infallible>>) {
        encode_groups(dst, zigzag_encode(self.0 as i64))
    }
}

impl EncodeLen for VarInt<i8> {
    fn encode_len(&self) -> (r: usize) {
        proof {
            lemma_varint_bytes_len(zigzag(self.0 as int));
        }
        groups_len(zigzag_encode(self.0 as i64))
    }
}

impl FixedEncodeLenHint for VarInt<i8> {
    fn min_encode_len() -> (r: usize)
        ensures
            r == 1,
    {
        assert forall|v: VarInt<i8>| 1 <= #[trigger] v.encoding().len() by {
            lemma_varint_bytes_len(zigzag(v.0 as int));
        }
        1
    }

    fn max_encode_len() -> (r: usize)
        ensures
            r == 2,
    {
        assert forall|v: VarInt<i8>| #[trigger] v.encoding().len() <= 2 by {
            lemma_widths();
            lemma_width_groups(zigzag(v.0 as int), 8, 2);
        }
        2
    }
}

impl Decode for VarInt<i8> {
    type Error = VarIntTooLarge;

    open spec fn decode_spec(src: Seq<u8>) -> (Result<VarInt<i8>, BufTooShortOr<VarIntTooLarge>>, nat) {
        match varint_scan(src, 2) {
            (Ok(v), n) => (Ok(VarInt(unzigzag(v % 0x100) as i8)), n),
            (Err(e), n) => (Err(e), n),
        }
    }

    fn decode<R: Read>(src: &mut R) -> (r: Result<VarInt<i8>, BufTooShortOr<VarIntTooLarge>>) {
        match decode_groups(src, 2) {
            Ok(v) => {
                proof {
                    if let (Ok(n), _) = varint_scan(old(src).contents(), 2) {
                        vstd::arithmetic::div_mod::lemma_mod_mod(n as int, 0x100, 0x100000000000000);
                    }
                }
                Ok(VarInt(zigzag_decode(v % 0x100) as i8))
            },
            Err(e) => Err(e),
        }
    }
}

impl RoundTrip for VarInt<i8> {
    proof fn lemma_round_trip(v: VarInt<i8>, rest: Seq<u8>) {
        lemma_widths();
        lemma_width_groups(zigzag(v.0 as int), 8, 2);
        lemma_varint_round_trip(zigzag(v.0 as int), rest, 2);
    }
}

impl Encode for VarInt<i16> {
    type Error = Infallible;

    open spec fn encoding(&self) -> Seq<u8> {
        varint_bytes(zigzag(self.0 as int))
    }

    fn encode<W: Write>(&self, dst: &mut W) -> (r: Result<(), BufTooShortOr<Infallible>>) {
        encode_groups(dst, zigzag_encode(self.0 as i64))
    }
}

impl EncodeLen for VarInt<i16> {
    fn encode_len(&self) -> (r: usize) {
        proof {
            lemma_varint_bytes_len(zigzag(self.0 as int));
        }
        groups_len(zigzag_encode(self.0 as i64))
    }
}

impl FixedEncodeLenHint for VarInt<i16> {
    fn min_encode_len() -> (r: usize)
        ensures
            r == 1,
    {
        assert forall|v: VarInt<i16>| 1 <= #[trigger] v.encoding().len() by {
            lemma_varint_bytes_len(zigzag(v.0 as int));
        }
        1
    }

    fn max_encode_len() -> (r: usize)
        ensures
            r == 3,
    {
        assert forall|v: VarInt<i16>| #[trigger] v.encoding().len() <= 3 by {
            lemma_widths();
            lemma_width_groups(zigzag(v.0 as int), 16, 3);
        }
        3
    }
}

impl Decode for VarInt<i16> {
    type Error = VarIntTooLarge;

    open spec fn decode_spec(src: Seq<u8>) -> (Result<VarInt<i16>, BufTooShortOr<VarIntTooLarge>>, nat) {
        match varint_scan(src, 3) {
            (Ok(v), n) => (Ok(VarInt(unzigzag(v % 0x10000) as i16)), n),
            (Err(e), n) => (Err(e), n),
        }
    }

    fn decode<R: Read>(src: &mut R) -> (r: Result<VarInt<i16>, BufTooShortOr<VarIntTooLarge>>) {
        match decode_groups(src, 3) {
            Ok(v) => {
                proof {
                    if let (Ok(n), _) = varint_scan(old(src).contents(), 3) {
                        vstd::arithmetic::div_mod::lemma_mod_mod(n as int, 0x10000, 0x1000000000000);
                    }
                }
                Ok(VarInt(zigzag_decode(v % 0x10000) as i16))
            },
            Err(e) => Err(e),
        }
    }
}

impl RoundTrip for VarInt<i16> {
    proof fn lemma_round_trip(v: VarInt<i16>, rest: Seq<u8>) {
        lemma_widths();
        lemma_width_groups(zigzag(v.0 as int), 16, 3);
        lemma_varint_round_trip(zigzag(v.0 as int), rest, 3);
    }
}

impl Encode for VarInt<i32> {
    type Error = Infallible;

    open spec fn encoding(&self) -> Seq<u8> {
        varint_bytes(zigzag(self.0 as int))
    }

    fn encode<W: Write>(&self, dst: &mut W) -> (r: Result<(), BufTooShortOr<Infallible>>) {
        encode_groups(dst, zigzag_encode(self.0 as i64))
    }
}

impl EncodeLen for VarInt<i32> {
    fn encode_len(&self) -> (r: usize) {
        proof {
            lemma_varint_bytes_len(zigzag(self.0 as int));
        }
        groups_len(zigzag_encode(self.0 as i64))
    }
}

impl FixedEncodeLenHint for VarInt<i32> {
    fn min_encode_len() -> (r: usize)
        ensures
            r == 1,
    {
        assert forall|v: VarInt<i32>| 1 <= #[trigger] v.encoding().len() by {
            lemma_varint_bytes_len(zigzag(v.0 as int));
        }
        1
    }

    fn max_encode_len() -> (r: usize)
        ensures
            r == 5,
    {
        assert forall|v: VarInt<i32>| #[trigger] v.encoding().len() <= 5 by {
            lemma_widths();
            lemma_width_groups(zigzag(v.0 as int), 32, 5);
        }
        5
    }
}

impl Decode for VarInt<i32> {
    type Error = VarIntTooLarge;

    open spec fn decode_spec(src: Seq<u8>) -> (Result<VarInt<i32>, BufTooShortOr<VarIntTooLarge>>, nat) {
        match varint_scan(src, 5) {
            (Ok(v), n) => (Ok(VarInt(unzigzag(v % 0x100000000) as i32)), n),
            (Err(e), n) => (Err(e), n),
        }
    }

    fn decode<R: Read>(src: &mut R) -> (r: Result<VarInt<i32>, BufTooShortOr<VarIntTooLarge>>) {
        match decode_groups(src, 5) {
            Ok(v) => {
                proof {
                    if let (Ok(n), _) = varint_scan(old(src).contents(), 5) {
                        vstd::arithmetic::div_mod::lemma_mod_mod(n as int, 0x100000000, 0x100000000);
                    }
                }
                Ok(VarInt(zigzag_decode(v % 0x100000000) as i32))
            },
            Err(e) => Err(e),
        }
    }
}

impl RoundTrip for VarInt<i32> {
    proof fn lemma_round_trip(v: VarInt<i32>, rest: Seq<u8>) {
        lemma_widths();
        lemma_width_groups(zigzag(v.0 as int), 32, 5);
        lemma_varint_round_trip(zigzag(v.0 as int), rest, 5);
    }
}

impl Encode for VarInt<i64> {
    type Error = Infallible;

    open spec fn encoding(&self) -> Seq<u8> {
        varint_bytes(zigzag(self.0 as int))
    }

    fn encode<W: Write>(&self, dst: &mut W) -> (r: Result<(), BufTooShortOr<Infallible>>) {
        encode_groups(dst, zigzag_encode(self.0 as i64))
    }
}

impl EncodeLen for VarInt<i64> {
    fn encode_len(&self) -> (r: usize) {
        proof {
            lemma_varint_bytes_len(zigzag(self.0 as int));
        }
        groups_len(zigzag_encode(self.0 as i64))
    }
}

impl FixedEncodeLenHint for VarInt<i64> {
    fn min_encode_len() -> (r: usize)
        ensures
            r == 1,
    {
        assert forall|v: VarInt<i64>| 1 <= #[trigger] v.encoding().len() by {
            lemma_varint_bytes_len(zigzag(v.0 as int));
        }
        1
    }

    fn max_encode_len() -> (r: usize)
        ensures
            r == 10,
    {
        assert forall|v: VarInt<i64>| #[trigger] v.encoding().len() <= 10 by {
            lemma_widths();
            lemma_width_groups(zigzag(v.0 as int), 64, 10);
        }
        10
    }
}

impl Decode for VarInt<i64> {
    type Error = VarIntTooLarge;

    open spec fn decode_spec(src: Seq<u8>) -> (Result<VarInt<i64>, BufTooShortOr<VarIntTooLarge>>, nat) {
        match varint_scan(src, 10) {
            (Ok(v), n) => (Ok(VarInt(unzigzag(v % 0x10000000000000000) as i64)), n),
            (Err(e), n) => (Err(e), n),
        }
    }

    fn decode<R: Read>(src: &mut R) -> (r: Result<VarInt<i64>, BufTooShortOr<VarIntTooLarge>>) {
        match decode_groups(src, 10) {
            Ok(v) => {
                proof {
                    if let (Ok(n), _) = varint_scan(old(src).contents(), 10) {
                        vstd::arithmetic::div_mod::lemma_mod_mod(n as int, 0x10000000000000000, 0x1);
                    }
                }
                Ok(VarInt(zigzag_decode(v)))
            },
            Err(e) => Err(e),
        }
    }
}

impl RoundTrip for VarInt<i64> {
    proof fn lemma_round_trip(v: VarInt<i64>, rest: Seq<u8>) {
        lemma_widths();
        lemma_width_groups(zigzag(v.0 as int), 64, 10);
        lemma_varint_round_trip(zigzag(v.0 as int), rest, 10);
    }
}

/// The most groups that a platform-width varint takes.
pub open spec fn usize_groups() -> nat {
    ((usize::BITS + 7) / 7) as nat
}

fn usize_groups_exec() -> (r: usize)
    ensures
        r == usize_groups(),
        r == 5 || r == 10,
        usize::BITS == 32 ==> r == 5,
        usize::BITS == 64 ==> r == 10,
{
    assert(usize::BITS == 32 || usize::BITS == 64);
    ((usize::BITS + 7) / 7) as usize
}

proof fn lemma_usize_width()
    ensures
        usize::BITS == 32 || usize::BITS == 64,
        usize::MAX == pow2(usize::BITS as nat) - 1,
        isize::MAX == pow2((usize::BITS - 1) as nat) - 1,
        isize::MIN == -pow2((usize::BITS - 1) as nat),
        pow2(31) == 0x8000_0000,
        pow2(63) == 0x8000_0000_0000_0000,
{
    vstd::layout::unsigned_int_max_values();
    vstd::layout::signed_int_min_max_values();
    lemma_widths();
    lemma2_to64();
    lemma2_to64_rest();
}

impl Encode for VarInt<usize> {
    type Error = Infallible;

    open spec fn encoding(&self) -> Seq<u8> {
        varint_bytes(self.0 as nat)
    }

    fn encode<W: Write>(&self, dst: &mut W) -> (r: Result<(), BufTooShortOr<Infallible>>) {
        encode_groups(dst, self.0 as u64)
    }
}

impl EncodeLen for VarInt<usize> {
    fn encode_len(&self) -> (r: usize) {
        proof {
            lemma_varint_bytes_len(self.0 as nat);
        }
        groups_len(self.0 as u64)
    }
}

impl FixedEncodeLenHint for VarInt<usize> {
    fn min_encode_len() -> (r: usize)
        ensures
            r == 1,
    {
        assert forall|v: VarInt<usize>| 1 <= #[trigger] v.encoding().len() by {
            lemma_varint_bytes_len(v.0 as nat);
        }
        1
    }

    fn max_encode_len() -> (r: usize)
        ensures
            r == usize_groups(),
    {
        let r = usize_groups_exec();
        assert forall|v: VarInt<usize>| #[trigger] v.encoding().len() <= r by {
            lemma_usize_width();
            lemma_width_groups(v.0 as nat, usize::BITS as nat, r as nat);
        }
        r
    }
}

impl Decode for VarInt<usize> {
    type Error = VarIntTooLarge;

    open spec fn decode_spec(src: Seq<u8>) -> (Result<VarInt<usize>, BufTooShortOr<VarIntTooLarge>>, nat) {
        match varint_scan(src, usize_groups()) {
            (Ok(v), n) => (Ok(VarInt((v % pow2(usize::BITS as nat)) as usize)), n),
            (Err(e), n) => (Err(e), n),
        }
    }

    fn decode<R: Read>(src: &mut R) -> (r: Result<VarInt<usize>, BufTooShortOr<VarIntTooLarge>>) {
        proof {
            lemma_usize_width();
        }
        let g = usize_groups_exec();
        match decode_groups(src, g) {
            Ok(v) => {
                if usize::BITS == 64 {
                    Ok(VarInt(v as usize))
                } else {
                    proof {
                        if let (Ok(n), _) = varint_scan(old(src).contents(), g as nat) {
                            vstd::arithmetic::div_mod::lemma_mod_mod(n as int, 0x1_0000_0000, 0x1_0000_0000);
                        }
                    }
                    Ok(VarInt((v % 0x1_0000_0000) as usize))
                }
            },
            Err(e) => Err(e),
        }
    }
}

impl RoundTrip for VarInt<usize> {
    proof fn lemma_round_trip(v: VarInt<usize>, rest: Seq<u8>) {
        lemma_usize_width();
        lemma_width_groups(v.0 as nat, usize::BITS as nat, usize_groups());
        lemma_varint_round_trip(v.0 as nat, rest, usize_groups());
    }
}

impl Encode for VarInt<isize> {
    type Error = Infallible;

    open spec fn encoding(&self) -> Seq<u8> {
        varint_bytes(zigzag(self.0 as int))
    }

    fn encode<W: Write>(&self, dst: &mut W) -> (r: Result<(), BufTooShortOr<Infallible>>) {
        encode_groups(dst, zigzag_encode(self.0 as i64))
    }
}

impl EncodeLen for VarInt<isize> {
    fn encode_len(&self) -> (r: usize) {
        proof {
            lemma_varint_bytes_len(zigzag(self.0 as int));
        }
        groups_len(zigzag_encode(self.0 as i64))
    }
}

impl FixedEncodeLenHint for VarInt<isize> {
    fn min_encode_len() -> (r: usize)
        ensures
            r == 1,
    {
        assert forall|v: VarInt<isize>| 1 <= #[trigger] v.encoding().len() by {
            lemma_varint_bytes_len(zigzag(v.0 as int));
        }
        1
    }

    fn max_encode_len() -> (r: usize)
        ensures
            r == usize_groups(),
    {
        let r = usize_groups_exec();
        assert forall|v: VarInt<isize>| #[trigger] v.encoding().len() <= r by {
            lemma_usize_width();
            lemma_width_groups(zigzag(v.0 as int), usize::BITS as nat, r as nat);
        }
        r
    }
}

impl Decode for VarInt<isize> {
    type Error = VarIntTooLarge;

    open spec fn decode_spec(src: Seq<u8>) -> (Result<VarInt<isize>, BufTooShortOr<VarIntTooLarge>>, nat) {
        match varint_scan(src, usize_groups()) {
            (Ok(v), n) => (Ok(VarInt(unzigzag(v % pow2(usize::BITS as nat)) as isize)), n),
            (Err(e), n) => (Err(e), n),
        }
    }

    fn decode<R: Read>(src: &mut R) -> (r: Result<VarInt<isize>, BufTooShortOr<VarIntTooLarge>>) {
        proof {
            lemma_usize_width();
        }
        let g = usize_groups_exec();
        match decode_groups(src, g) {
            Ok(v) => {
                if usize::BITS == 64 {
                    Ok(VarInt(zigzag_decode(v) as isize))
                } else {
                    proof {
                        if let (Ok(n), _) = varint_scan(old(src).contents(), g as nat) {
                            vstd::arithmetic::div_mod::lemma_mod_mod(n as int, 0x1_0000_0000, 0x1_0000_0000);
                        }
                    }
                    Ok(VarInt(zigzag_decode(v % 0x1_0000_0000) as isize))
                }
            },
            Err(e) => Err(e),
        }
    }
}

impl RoundTrip for VarInt<isize> {
    proof fn lemma_round_trip(v: VarInt<isize>, rest: Seq<u8>) {
        lemma_usize_width();
        let z = zigzag(v.0 as int);
        if usize::BITS == 64 {
            assert(z < pow2(64));
        } else {
            assert(z < pow2(32));
        }
        assert(z % pow2(usize::BITS as nat) == z) by {
            vstd::arithmetic::div_mod::lemma_small_mod(z, pow2(usize::BITS as nat));
        }
        lemma_width_groups(zigzag(v.0 as int), usize::BITS as nat, usize_groups());
        lemma_varint_round_trip(zigzag(v.0 as int), rest, usize_groups());
    }
}

} // verus!
