use octs::{BufTooShort, Bytes, Chain, Read, ReadValue};

fn skip_with<R: Read>(mut buf: R) {
    assert_eq!(4, buf.rem());

    buf.skip(1).unwrap();
    assert_eq!(3, buf.rem());

    buf.skip(2).unwrap();
    assert_eq!(1, buf.rem());

    buf.skip(2).unwrap_err();
    assert_eq!(1, buf.rem());

    buf.skip(1).unwrap();
    assert_eq!(0, buf.rem());
    assert!(buf.chunk().is_empty());
}

#[test]
fn skip() {
    skip_with(&[1, 2, 3, 4][..]);
    skip_with(Bytes::from_static(&[1, 2, 3, 4]));
}

fn read_next_with<R: Read>(mut buf: R) {
    assert_eq!(4, buf.rem());

    let read = buf.read_next(1).unwrap();
    assert_eq!(Bytes::from_static(&[1]), read);
    assert_eq!(3, buf.rem());

    let read = buf.read_next(2).unwrap();
    assert_eq!(Bytes::from_static(&[2, 3]), read);
    assert_eq!(1, buf.rem());

    buf.read_next(2).unwrap_err();
    assert_eq!(1, buf.rem());

    let read = buf.read_next(1).unwrap();
    assert_eq!(Bytes::from_static(&[4]), read);
    assert_eq!(0, buf.rem());
    assert!(buf.chunk().is_empty());
}

#[test]
fn read_next() {
    read_next_with(&[1, 2, 3, 4][..]);
    read_next_with(Bytes::from_static(&[1, 2, 3, 4]));
}

fn read_exact_with<R: Read>(mut buf: R) {
    assert_eq!(4, buf.rem());

    assert_eq!([1], buf.read_exact::<1>().unwrap());
    assert_eq!(3, buf.rem());

    assert_eq!([2, 3], buf.read_exact::<2>().unwrap());
    assert_eq!(1, buf.rem());

    buf.read_exact::<2>().unwrap_err();
    assert_eq!(1, buf.rem());

    assert_eq!([4], buf.read_exact::<1>().unwrap());
    assert_eq!(0, buf.rem());
    assert!(buf.chunk().is_empty());
}

#[test]
fn read_exact() {
    // contiguous
    read_exact_with(&[1, 2, 3, 4][..]);
    read_exact_with(Bytes::from_static(&[1, 2, 3, 4]));

    // chained / non-contiguous
    read_exact_with(Chain::new(&[1, 2][..], &[3, 4][..]));
    read_exact_with(Chain::new(
        Bytes::from_static(&[1, 2]),
        Bytes::from_static(&[3, 4]),
    ));
}

#[test]
fn read_exact_across_fragments() {
    let contiguous = &[1u8, 2, 3, 4, 5, 6][..];
    let inner = Chain::new(&[3u8][..], &[4u8, 5][..]);
    let fragmented = Chain::new(Chain::new(&[1u8, 2][..], inner), &[6u8][..]);
    let mut a = contiguous;
    let mut b = fragmented;
    assert_eq!(a.chunk().len(), 6);
    assert_eq!(b.chunk().len(), 2);
    assert_eq!(a.read_exact::<5>(), b.read_exact::<5>());
    assert_eq!(a.rem(), b.rem());
    assert_eq!(Err(BufTooShort), b.read_exact::<2>());
    assert_eq!(1, b.rem());
    assert_eq!([6], b.read_exact::<1>().unwrap());
}

#[test]
fn read_exact_boundary() {
    let mut buf = &[9u8, 8, 7][..];
    assert_eq!(Err(BufTooShort), buf.read_exact::<4>());
    assert_eq!(3, buf.rem());
    assert_eq!([9, 8, 7], buf.read_exact::<3>().unwrap());
    assert_eq!([0u8; 0], buf.read_exact::<0>().unwrap());
}

#[test]
fn read_next_across_fragments() {
    let mut buf = Chain::new(&[1u8, 2][..], Bytes::from_static(&[3, 4]));
    assert_eq!(Bytes::from_static(&[1, 2, 3]), buf.read_next(3).unwrap());
    assert_eq!(1, buf.rem());
    assert_eq!(Err(BufTooShort), buf.read_next(2));
    assert_eq!(&[4], buf.chunk());
}

#[test]
fn advance_on_chain() {
    let mut buf = Chain::new(&[1u8, 2][..], &[3u8, 4][..]);
    assert_eq!(Err(BufTooShort), buf.advance(5));
    assert_eq!(4, buf.rem());
    buf.advance(3).unwrap();
    assert_eq!(&[4], buf.chunk());
}

#[test]
fn read_integers_big_endian() {
    let mut buf = &[0x12u8, 0x34, 0xff, 0xfe, 0x01][..];
    assert_eq!(Ok(0x1234u16), buf.read::<u16>());
    assert_eq!(Ok(-2i16), buf.read::<i16>());
    assert_eq!(Ok(1u8), buf.read::<u8>());
    assert!(buf.read::<u8>().is_err());
}
