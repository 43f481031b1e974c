//! Fallible cursors over byte buffers, typed encoding and decoding against
//! them, a variable-length integer codec, and a chunk iterator over shared
//! byte buffers.

pub mod chunks;
mod error;
pub mod prim;
mod read;
mod shared;
pub mod std_io;
pub mod test;
mod varint;
mod write;

pub use bytes::{Bytes, BytesMut};
pub use error::{BufError, BufTooShort, BufTooShortOr};
pub use read::{Chain, Decode, Read, ReadValue, RoundTrip};
pub use shared::{bytes_mut_view, bytes_view};
pub use varint::{
    lemma_overlong_rejected, lemma_varint_len_bounds, unzigzag, varint_bytes, varint_len, varint_scan, zigzag, VarInt,
    VarIntTooLarge,
};
pub use write::{
    vec_room, Encode, EncodeLen, FixedEncodeLen, FixedEncodeLenHint, Write, WriteValue,
};
