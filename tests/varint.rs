use octs::test::round_trip;
use octs::{
    BufTooShortOr, Bytes, BytesMut, EncodeLen, FixedEncodeLenHint, ReadValue, VarInt,
    VarIntTooLarge, WriteValue,
};

fn encode<T: octs::Encode>(value: &T) -> Vec<u8>
where
    T::Error: core::fmt::Debug,
{
    let mut buf: Vec<u8> = Vec::new();
    buf.write(value).unwrap();
    buf
}

#[test]
fn round_trip_all_u8s() {
    for v in 0..u8::MAX {
        let (decoded, written, left) = round_trip(&VarInt(v));
        assert_eq!(VarInt(v).encode_len(), written);
        assert_eq!(Ok(VarInt(v)), decoded);
        assert_eq!(0, left);
    }
}

#[test]
fn round_trip_all_i8s() {
    for v in 0..i8::MAX {
        let (decoded, written, left) = round_trip(&VarInt(v));
        assert_eq!(VarInt(v).encode_len(), written);
        assert_eq!(Ok(VarInt(v)), decoded);
        assert_eq!(0, left);
    }
}

#[test]
fn round_trip_all_u16s() {
    for v in 0..u16::MAX {
        let (decoded, written, left) = round_trip(&VarInt(v));
        assert_eq!(VarInt(v).encode_len(), written);
        assert_eq!(Ok(VarInt(v)), decoded);
        assert_eq!(0, left);
    }
}

#[test]
fn round_trip_all_i16s() {
    for v in 0..i16::MAX {
        let (decoded, written, left) = round_trip(&VarInt(v));
        assert_eq!(VarInt(v).encode_len(), written);
        assert_eq!(Ok(VarInt(v)), decoded);
        assert_eq!(0, left);
    }
}

#[test]
fn decode_all_msbs() {
    const LEN: usize = 64;
    let mut buf = &[0x80; LEN][..];
    buf.read::<VarInt<u8>>().unwrap_err();
    // make sure it doesn't try to read the entire buffer
    assert_eq!(LEN - VarInt::<u8>::max_encode_len(), buf.len());
}

#[test]
fn encode_300() {
    assert_eq!(vec![0xAC, 0x02], encode(&VarInt(300u32)));
    let mut buf = &[0xACu8, 0x02][..];
    assert_eq!(Ok(VarInt(300u32)), buf.read::<VarInt<u32>>());
    assert_eq!(0, buf.len());
}

#[test]
fn zero_is_one_byte() {
    assert_eq!(vec![0x00], encode(&VarInt(0u64)));
    assert_eq!(1, VarInt(0u64).encode_len());
}

#[test]
fn extremes() {
    assert_eq!(vec![0xff, 0x01], encode(&VarInt(u8::MAX)));
    assert_eq!(
        vec![0xff, 0xff, 0xff, 0xff, 0xff, 0xff, 0xff, 0xff, 0xff, 0x01],
        encode(&VarInt(u64::MAX))
    );
    assert_eq!(10, VarInt(u64::MAX).encode_len());
    assert_eq!(5, VarInt(u32::MAX).encode_len());
    assert_eq!(3, VarInt(u16::MAX).encode_len());
    for v in [0u64, 1, 127, 128, 16383, 16384, u64::MAX / 3, u64::MAX] {
        let (decoded, written, left) = round_trip(&VarInt(v));
        assert_eq!(VarInt(v).encode_len(), written);
        assert_eq!(Ok(VarInt(v)), decoded);
        assert_eq!(0, left);
    }
}

#[test]
fn zigzag_bytes() {
    assert_eq!(vec![0x00], encode(&VarInt(0i32)));
    assert_eq!(vec![0x01], encode(&VarInt(-1i32)));
    assert_eq!(vec![0x02], encode(&VarInt(1i32)));
    assert_eq!(vec![0x03], encode(&VarInt(-2i32)));
    assert_eq!(vec![0xff, 0x01], encode(&VarInt(i8::MIN)));
    assert_eq!(vec![0xfe, 0x01], encode(&VarInt(i8::MAX)));
}

#[test]
fn signed_negative_half_round_trips() {
    for v in i8::MIN..=i8::MAX {
        let (decoded, _, _) = round_trip(&VarInt(v));
        assert_eq!(Ok(VarInt(v)), decoded);
    }
    for v in [i16::MIN, -300, -1] {
        let (decoded, _, _) = round_trip(&VarInt(v));
        assert_eq!(Ok(VarInt(v)), decoded);
    }
    for v in [i32::MIN, i32::MIN + 1, -1] {
        let (decoded, _, _) = round_trip(&VarInt(v));
        assert_eq!(Ok(VarInt(v)), decoded);
    }
    for v in [i64::MIN, i64::MIN + 1, -1, i64::MAX] {
        let (decoded, _, _) = round_trip(&VarInt(v));
        assert_eq!(Ok(VarInt(v)), decoded);
    }
}

#[test]
fn encode_len_matches_written() {
    for v in [0u32, 1, 127, 128, 300, 1 << 21, u32::MAX] {
        assert_eq!(VarInt(v).encode_len(), encode(&VarInt(v)).len());
    }
    for v in [0i64, -1, 64, -65, i64::MIN, i64::MAX] {
        assert_eq!(VarInt(v).encode_len(), encode(&VarInt(v)).len());
    }
}

#[test]
fn encode_len_bounds() {
    assert_eq!(1, VarInt::<u8>::min_encode_len());
    assert_eq!(2, VarInt::<u8>::max_encode_len());
    assert_eq!(3, VarInt::<i16>::max_encode_len());
    assert_eq!(5, VarInt::<u32>::max_encode_len());
    assert_eq!(10, VarInt::<i64>::max_encode_len());
    assert!(octs::test::encode_len_hint(&VarInt(u16::MAX)));
}

#[test]
fn overlong_u32_consumes_five() {
    let mut buf = &[0xffu8; 9][..];
    assert_eq!(
        Err(BufTooShortOr::Or(VarIntTooLarge)),
        buf.read::<VarInt<u32>>()
    );
    assert_eq!(4, buf.len());
}

#[test]
fn truncated_varint_is_too_short() {
    let mut buf = &[0x80u8, 0x80][..];
    assert_eq!(Err(BufTooShortOr::TooShort), buf.read::<VarInt<u64>>());
    assert_eq!(0, buf.len());
}

#[test]
fn u8_keeps_low_bits() {
    let mut buf = &[0xffu8, 0x7f][..];
    assert_eq!(Ok(VarInt(0xffu8)), buf.read::<VarInt<u8>>());
}

#[test]
fn run() {
    let mut bytes = BytesMut::new();
    bytes.write(&50u32).unwrap();
    bytes.write(&20u32).unwrap();
    bytes.write(&75u64).unwrap();
    bytes.write(&0u64).unwrap();
    bytes.write(&VarInt(50u32)).unwrap();
    println!("{}", bytes.len());
    assert_eq!(25, bytes.len());

    let mut bytes: Bytes = bytes.freeze();
    println!("{:?}", bytes.read::<u32>());
    println!("{:?}", bytes.read::<u32>());
    println!("{:?}", bytes.read::<octs::prim::NonZeroU64>());
    println!("{:?}", bytes.read::<octs::prim::NonZeroU64>());
}

#[test]
fn platform_width_varints() {
    for v in [0usize, 1, 300, usize::MAX] {
        let (decoded, written, left) = round_trip(&VarInt(v));
        assert_eq!(VarInt(v).encode_len(), written);
        assert_eq!(Ok(VarInt(v)), decoded);
        assert_eq!(0, left);
    }
    for v in [isize::MIN, -1, 0, 1, isize::MAX] {
        let (decoded, written, left) = round_trip(&VarInt(v));
        assert_eq!(VarInt(v).encode_len(), written);
        assert_eq!(Ok(VarInt(v)), decoded);
        assert_eq!(0, left);
    }
    assert_eq!(vec![0xAC, 0x02], encode(&VarInt(300usize)));
    assert_eq!(vec![0x01], encode(&VarInt(-1isize)));
    let groups = (usize::BITS as usize + 7) / 7;
    assert_eq!(groups, VarInt::<usize>::max_encode_len());
    let mut buf = &[0x80u8; 20][..];
    assert_eq!(
        Err(BufTooShortOr::Or(VarIntTooLarge)),
        buf.read::<VarInt<usize>>()
    );
    assert_eq!(20 - groups, buf.len());
}
