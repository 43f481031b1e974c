use core::convert::Infallible;
use octs::{BufTooShort, BufTooShortOr, VarIntTooLarge};

#[test]
fn map_or_keeps_too_short() {
    let e: BufTooShortOr<u8> = BufTooShortOr::TooShort;
    assert_eq!(BufTooShortOr::<u16>::TooShort, e.map_or(|x| x as u16 + 1));
    let e: BufTooShortOr<u8> = BufTooShortOr::Or(4);
    assert_eq!(BufTooShortOr::Or(5u16), e.map_or(|x| x as u16 + 1));
}

#[test]
fn conversions() {
    let e: BufTooShortOr<VarIntTooLarge> = BufTooShort.into();
    assert_eq!(BufTooShortOr::TooShort, e);
    let e: BufTooShortOr<VarIntTooLarge> = VarIntTooLarge.into();
    assert_eq!(BufTooShortOr::Or(VarIntTooLarge), e);
    let e: BufTooShort = BufTooShortOr::<Infallible>::TooShort.into();
    assert_eq!(BufTooShort, e);
}
