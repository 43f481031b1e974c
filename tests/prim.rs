use core::fmt::Debug;
use octs::prim::{
    NonZeroI16, NonZeroI32, NonZeroI64, NonZeroI8, NonZeroIsize, NonZeroU16, NonZeroU32,
    NonZeroU64, NonZeroU8, NonZeroUsize,
};
use octs::test::hint_round_trip;
use octs::{BufTooShortOr, Decode, Encode, EncodeLen, ReadValue, WriteValue};

fn check_round_trip<T>(value: T)
where
    T: Debug + Encode + Decode + EncodeLen + PartialEq,
    <T as Encode>::Error: Debug,
    <T as Decode>::Error: Debug,
{
    let encode_len = value.encode_len();
    let mut buf: Vec<u8> = Vec::with_capacity(encode_len);
    buf.write(&value).unwrap();
    assert_eq!(encode_len, buf.len());
    let mut src = &buf[..];
    let actual = src.read::<T>().unwrap();
    assert_eq!(value, actual);
    assert_eq!(0, src.len());
}

fn check_hint<T>(value: T)
where
    T: Debug + octs::RoundTrip + octs::FixedEncodeLenHint + PartialEq,
    <T as Decode>::Error: Debug + PartialEq,
{
    let (hint, decoded, written, left) = hint_round_trip(&value);
    assert!(hint);
    assert_eq!(value.encode_len(), written);
    assert_eq!(Ok(value), decoded);
    assert_eq!(0, left);
}

#[test]
fn round_trip_false() {
    check_hint(false);
}

#[test]
fn round_trip_true() {
    check_hint(true);
}

#[test]
fn decode_invalid() {
    (&[2u8][..]).read::<bool>().unwrap_err();
}

#[test]
fn decode_invalid_value() {
    let mut buf = &[2u8, 1][..];
    assert!(matches!(buf.read::<bool>(), Err(BufTooShortOr::Or(_))));
    assert_eq!(1, buf.len());
    assert_eq!(Ok(true), buf.read::<bool>());
    assert_eq!(Err(BufTooShortOr::TooShort), buf.read::<bool>());
}

#[test]
fn nonzero_round_trip() {
    check_round_trip(NonZeroUsize::min_value());
    check_round_trip(NonZeroUsize::new(1).unwrap());
    check_round_trip(NonZeroUsize::new(2).unwrap());
    check_round_trip(NonZeroUsize::max_value());
    check_round_trip(NonZeroIsize::min_value());
    check_round_trip(NonZeroIsize::new(1).unwrap());
    check_round_trip(NonZeroIsize::new(2).unwrap());
    check_round_trip(NonZeroIsize::max_value());
    check_round_trip(NonZeroU8::min_value());
    check_round_trip(NonZeroU8::new(1).unwrap());
    check_round_trip(NonZeroU8::new(2).unwrap());
    check_round_trip(NonZeroU8::max_value());
    check_round_trip(NonZeroI8::min_value());
    check_round_trip(NonZeroI8::new(1).unwrap());
    check_round_trip(NonZeroI8::new(2).unwrap());
    check_round_trip(NonZeroI8::max_value());
    check_round_trip(NonZeroU16::min_value());
    check_round_trip(NonZeroU16::new(1).unwrap());
    check_round_trip(NonZeroU16::new(2).unwrap());
    check_round_trip(NonZeroU16::max_value());
    check_round_trip(NonZeroI16::min_value());
    check_round_trip(NonZeroI16::new(1).unwrap());
    check_round_trip(NonZeroI16::new(2).unwrap());
    check_round_trip(NonZeroI16::max_value());
    check_round_trip(NonZeroU32::min_value());
    check_round_trip(NonZeroU32::new(1).unwrap());
    check_round_trip(NonZeroU32::new(2).unwrap());
    check_round_trip(NonZeroU32::max_value());
    check_round_trip(NonZeroI32::min_value());
    check_round_trip(NonZeroI32::new(1).unwrap());
    check_round_trip(NonZeroI32::new(2).unwrap());
    check_round_trip(NonZeroI32::max_value());
    check_round_trip(NonZeroU64::min_value());
    check_round_trip(NonZeroU64::new(1).unwrap());
    check_round_trip(NonZeroU64::new(2).unwrap());
    check_round_trip(NonZeroU64::max_value());
    check_round_trip(NonZeroI64::min_value());
    check_round_trip(NonZeroI64::new(1).unwrap());
    check_round_trip(NonZeroI64::new(2).unwrap());
    check_round_trip(NonZeroI64::max_value());
}

#[test]
fn decode_zero() {
    let mut buf = &[0u8; 16][..];
    buf.read::<NonZeroUsize>().unwrap_err();
    let mut buf = &[0u8; 16][..];
    buf.read::<NonZeroIsize>().unwrap_err();
    let mut buf = &[0u8; 16][..];
    buf.read::<NonZeroU8>().unwrap_err();
    let mut buf = &[0u8; 16][..];
    buf.read::<NonZeroI8>().unwrap_err();
    let mut buf = &[0u8; 16][..];
    buf.read::<NonZeroU16>().unwrap_err();
    let mut buf = &[0u8; 16][..];
    buf.read::<NonZeroI16>().unwrap_err();
    let mut buf = &[0u8; 16][..];
    buf.read::<NonZeroU32>().unwrap_err();
    let mut buf = &[0u8; 16][..];
    buf.read::<NonZeroI32>().unwrap_err();
    let mut buf = &[0u8; 16][..];
    buf.read::<NonZeroU64>().unwrap_err();
    let mut buf = &[0u8; 16][..];
    buf.read::<NonZeroI64>().unwrap_err();
}

#[test]
fn round_trip_opt() {
    check_round_trip(Some(NonZeroUsize::min_value()));
    check_round_trip(Option::<NonZeroUsize>::None);
    check_round_trip(Some(NonZeroUsize::new(1).unwrap()));
    check_round_trip(Some(NonZeroUsize::new(2).unwrap()));
    check_round_trip(Some(NonZeroUsize::max_value()));
    check_round_trip(Some(NonZeroIsize::min_value()));
    check_round_trip(Option::<NonZeroIsize>::None);
    check_round_trip(Some(NonZeroIsize::new(1).unwrap()));
    check_round_trip(Some(NonZeroIsize::new(2).unwrap()));
    check_round_trip(Some(NonZeroIsize::max_value()));
    check_round_trip(Some(NonZeroU8::min_value()));
    check_round_trip(Option::<NonZeroU8>::None);
    check_round_trip(Some(NonZeroU8::new(1).unwrap()));
    check_round_trip(Some(NonZeroU8::new(2).unwrap()));
    check_round_trip(Some(NonZeroU8::max_value()));
    check_round_trip(Some(NonZeroI8::min_value()));
    check_round_trip(Option::<NonZeroI8>::None);
    check_round_trip(Some(NonZeroI8::new(1).unwrap()));
    check_round_trip(Some(NonZeroI8::new(2).unwrap()));
    check_round_trip(Some(NonZeroI8::max_value()));
    check_round_trip(Some(NonZeroU16::min_value()));
    check_round_trip(Option::<NonZeroU16>::None);
    check_round_trip(Some(NonZeroU16::new(1).unwrap()));
    check_round_trip(Some(NonZeroU16::new(2).unwrap()));
    check_round_trip(Some(NonZeroU16::max_value()));
    check_round_trip(Some(NonZeroI16::min_value()));
    check_round_trip(Option::<NonZeroI16>::None);
    check_round_trip(Some(NonZeroI16::new(1).unwrap()));
    check_round_trip(Some(NonZeroI16::new(2).unwrap()));
    check_round_trip(Some(NonZeroI16::max_value()));
    check_round_trip(Some(NonZeroU32::min_value()));
    check_round_trip(Option::<NonZeroU32>::None);
    check_round_trip(Some(NonZeroU32::new(1).unwrap()));
    check_round_trip(Some(NonZeroU32::new(2).unwrap()));
    check_round_trip(Some(NonZeroU32::max_value()));
    check_round_trip(Some(NonZeroI32::min_value()));
    check_round_trip(Option::<NonZeroI32>::None);
    check_round_trip(Some(NonZeroI32::new(1).unwrap()));
    check_round_trip(Some(NonZeroI32::new(2).unwrap()));
    check_round_trip(Some(NonZeroI32::max_value()));
    check_round_trip(Some(NonZeroU64::min_value()));
    check_round_trip(Option::<NonZeroU64>::None);
    check_round_trip(Some(NonZeroU64::new(1).unwrap()));
    check_round_trip(Some(NonZeroU64::new(2).unwrap()));
    check_round_trip(Some(NonZeroU64::max_value()));
    check_round_trip(Some(NonZeroI64::min_value()));
    check_round_trip(Option::<NonZeroI64>::None);
    check_round_trip(Some(NonZeroI64::new(1).unwrap()));
    check_round_trip(Some(NonZeroI64::new(2).unwrap()));
    check_round_trip(Some(NonZeroI64::max_value()));
}

#[test]
fn decode_zero_opt() {
    let mut buf = &[0u8; 16][..];
    assert_eq!(None, buf.read::<Option<NonZeroUsize>>().unwrap());
    let mut buf = &[0u8; 16][..];
    assert_eq!(None, buf.read::<Option<NonZeroIsize>>().unwrap());
    let mut buf = &[0u8; 16][..];
    assert_eq!(None, buf.read::<Option<NonZeroU8>>().unwrap());
    let mut buf = &[0u8; 16][..];
    assert_eq!(None, buf.read::<Option<NonZeroI8>>().unwrap());
    let mut buf = &[0u8; 16][..];
    assert_eq!(None, buf.read::<Option<NonZeroU16>>().unwrap());
    let mut buf = &[0u8; 16][..];
    assert_eq!(None, buf.read::<Option<NonZeroI16>>().unwrap());
    let mut buf = &[0u8; 16][..];
    assert_eq!(None, buf.read::<Option<NonZeroU32>>().unwrap());
    let mut buf = &[0u8; 16][..];
    assert_eq!(None, buf.read::<Option<NonZeroI32>>().unwrap());
    let mut buf = &[0u8; 16][..];
    assert_eq!(None, buf.read::<Option<NonZeroU64>>().unwrap());
    let mut buf = &[0u8; 16][..];
    assert_eq!(None, buf.read::<Option<NonZeroI64>>().unwrap());
}

#[test]
fn num_round_trip() {
    check_hint(usize::MIN);
    check_hint(0usize);
    check_hint(1usize);
    check_hint(2usize);
    check_hint(usize::MAX);
    check_hint(isize::MIN);
    check_hint(0isize);
    check_hint(1isize);
    check_hint(2isize);
    check_hint(isize::MAX);
    check_hint(u8::MIN);
    check_hint(0u8);
    check_hint(1u8);
    check_hint(2u8);
    check_hint(u8::MAX);
    check_hint(i8::MIN);
    check_hint(0i8);
    check_hint(1i8);
    check_hint(2i8);
    check_hint(i8::MAX);
    check_hint(u16::MIN);
    check_hint(0u16);
    check_hint(1u16);
    check_hint(2u16);
    check_hint(u16::MAX);
    check_hint(i16::MIN);
    check_hint(0i16);
    check_hint(1i16);
    check_hint(2i16);
    check_hint(i16::MAX);
    check_hint(u32::MIN);
    check_hint(0u32);
    check_hint(1u32);
    check_hint(2u32);
    check_hint(u32::MAX);
    check_hint(i32::MIN);
    check_hint(0i32);
    check_hint(1i32);
    check_hint(2i32);
    check_hint(i32::MAX);
    check_hint(u64::MIN);
    check_hint(0u64);
    check_hint(1u64);
    check_hint(2u64);
    check_hint(u64::MAX);
    check_hint(i64::MIN);
    check_hint(0i64);
    check_hint(1i64);
    check_hint(2i64);
    check_hint(i64::MAX);
}

#[test]
fn unit_round_trip() {
    check_hint(());
}

#[test]
fn round_trip_unit() {
    check_hint(());
}

#[test]
fn integers_are_big_endian() {
    let mut buf: Vec<u8> = Vec::new();
    buf.write(&0x0102_0304u32).unwrap();
    buf.write(&-1i16).unwrap();
    buf.write(&i64::MIN).unwrap();
    assert_eq!(
        vec![1, 2, 3, 4, 0xff, 0xff, 0x80, 0, 0, 0, 0, 0, 0, 0],
        buf
    );
}

#[test]
fn nonzero_encodes_as_plain_integer() {
    let mut buf: Vec<u8> = Vec::new();
    buf.write(&NonZeroU16::new(0x0102).unwrap()).unwrap();
    buf.write(&Option::<NonZeroU16>::None).unwrap();
    assert_eq!(vec![1, 2, 0, 0], buf);
    assert!(NonZeroU32::new(0).is_none());
    assert_eq!(7, NonZeroU32::new(7).unwrap().get());
}

#[test]
fn bool_encoding() {
    let mut buf: Vec<u8> = Vec::new();
    buf.write(&true).unwrap();
    buf.write(&false).unwrap();
    assert_eq!(vec![1, 0], buf);
}

#[test]
fn platform_width_is_native() {
    let mut buf: Vec<u8> = Vec::new();
    buf.write(&1usize).unwrap();
    buf.write(&-1isize).unwrap();
    let n = core::mem::size_of::<usize>();
    assert_eq!(2 * n, buf.len());
    assert_eq!(1, buf[n - 1]);
    assert!(buf[n..].iter().all(|b| *b == 0xff));
}

#[test]
fn round_trip_phantom_data() {
    check_hint(core::marker::PhantomData::<i32>);
}
