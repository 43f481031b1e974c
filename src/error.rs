use core::convert::Infallible;
use vstd::prelude::*;

verus! {

/// An operation on a [`Read`](crate::Read) or [`Write`](crate::Write) needed
/// more bytes, or more room, than the buffer had.
///
/// A growable destination reports it only past the largest size that an
/// allocation can have.
#[derive(Debug, Clone, Copy, PartialEq, Eq, Hash)]
pub struct BufTooShort;

/// Either a [`BufTooShort`] or an error of the value being read or written.
///
/// It is recommended that `E` implements [`BufError`].
#[derive(Debug, Clone, Copy, PartialEq, Eq, Hash)]
pub enum BufTooShortOr<E> {
    /// See [`BufTooShort`].
    TooShort,
    /// The value's own error.
    Or(E),
}

impl<E> BufTooShortOr<E> {
    /// Maps [`BufTooShortOr::Or`] to a new value with `op`; a
    /// [`BufTooShortOr::TooShort`] stays as it is.
    pub fn map_or<F, G: FnOnce(E) -> F>(self, op: G) -> (r: BufTooShortOr<F>)
        requires
            self matches BufTooShortOr::Or(e) ==> op.requires((e,)),
        ensures
            self is TooShort ==> r is TooShort,
            self matches BufTooShortOr::Or(e) ==> (r matches BufTooShortOr::Or(f) && op.ensures(
                (e,),
                f,
            )),
    {
        match self {
            BufTooShortOr::TooShort => BufTooShortOr::TooShort,
            BufTooShortOr::Or(e) => BufTooShortOr::Or(op(e)),
        }
    }
}

/// Marker for an error type that is meant to stand as the `E` of
/// [`BufTooShortOr`].
pub trait BufError {

}

impl<E> From<BufTooShort> for BufTooShortOr<E> {
    fn from(value: BufTooShort) -> (r: Self) {
        BufTooShortOr::TooShort
    }
}

impl<E> vstd::std_specs::convert::FromSpecImpl<BufTooShort> for BufTooShortOr<E> {
    open spec fn obeys_from_spec() -> bool {
        true
    }

    open spec fn from_spec(v: BufTooShort) -> Self {
        BufTooShortOr::TooShort
    }
}

impl<E: BufError> From<E> for BufTooShortOr<E> {
    fn from(value: E) -> (r: Self) {
        BufTooShortOr::Or(value)
    }
}

impl<E: BufError> vstd::std_specs::convert::FromSpecImpl<E> for BufTooShortOr<E> {
    open spec fn obeys_from_spec() -> bool {
        true
    }

    open spec fn from_spec(v: E) -> Self {
        BufTooShortOr::Or(v)
    }
}

impl From<BufTooShortOr<Infallible>> for BufTooShort {
    /// No `Or` of `Infallible` exists: every such error is too-short.
    fn from(value: BufTooShortOr<Infallible>) -> (r: Self) {
        BufTooShort
    }
}

impl vstd::std_specs::convert::FromSpecImpl<BufTooShortOr<Infallible>> for BufTooShort {
    open spec fn obeys_from_spec() -> bool {
        true
    }

    open spec fn from_spec(v: BufTooShortOr<Infallible>) -> Self {
        BufTooShort
    }
}

} // verus!
