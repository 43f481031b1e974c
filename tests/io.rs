use octs::std_io::{Reader, Writer};
use octs::Chain;

#[test]
fn reader_copies_chunk_by_chunk() {
    let mut reader = Reader::new(Chain::new(&[1u8, 2, 3][..], &[4u8, 5][..]));
    let mut out = [0u8; 4];
    assert_eq!(3, reader.read_into(&mut out));
    assert_eq!([1, 2, 3, 0], out);
    assert_eq!(2, reader.read_into(&mut out));
    assert_eq!([4, 5, 3, 0], out);
    assert_eq!(0, reader.read_into(&mut out));
}

#[test]
fn reader_stops_at_out_len() {
    let mut reader = Reader::new(&[1u8, 2, 3][..]);
    let mut out = [0u8; 2];
    assert_eq!(2, reader.read_into(&mut out));
    assert_eq!([1, 2], out);
    assert_eq!(&[3u8][..], reader.into_inner());
}

#[test]
fn writer_fills_room() {
    let mut writer = Writer::new(Vec::new());
    assert_eq!(3, writer.write_some(&[7, 8, 9]));
    assert_eq!(&vec![7u8, 8, 9], writer.get());
    assert_eq!(vec![7u8, 8, 9], writer.into_inner());
}
