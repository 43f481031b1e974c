use octs::chunks::ByteChunksExt;
use octs::Bytes;

#[test]
#[allow(clippy::iter_nth_zero)]
fn nth() {
    let mut chunks = Bytes::from_static(&[]).byte_chunks(2);
    assert!(chunks.nth(0).is_none());
    assert!(chunks.nth(1).is_none());
    assert!(chunks.nth(2).is_none());

    let mut chunks = Bytes::from_static(&[1, 2, 3, 4, 5]).byte_chunks(2);
    assert_eq!(&[1, 2], &*chunks.nth(0).unwrap());
    assert_eq!(&[3, 4], &*chunks.nth(0).unwrap());
    assert_eq!(&[5], &*chunks.nth(0).unwrap());
    assert!(chunks.nth(0).is_none());
    assert!(chunks.nth(1).is_none());

    let mut chunks = Bytes::from_static(&[1, 2, 3, 4, 5]).byte_chunks(2);
    assert_eq!(&[3, 4], &*chunks.nth(1).unwrap());
    assert_eq!(&[5], &*chunks.nth(0).unwrap());
    assert!(chunks.nth(0).is_none());
    assert!(chunks.nth(1).is_none());

    let mut chunks = Bytes::from_static(&[1, 2, 3, 4, 5]).byte_chunks(2);
    assert_eq!(&[5], &*chunks.nth(2).unwrap());
    assert!(chunks.nth(0).is_none());
    assert!(chunks.nth(1).is_none());

    let mut chunks = Bytes::from_static(&[1, 2, 3, 4]).byte_chunks(2);
    assert_eq!(&[1, 2], &*chunks.nth(0).unwrap());
    assert_eq!(&[3, 4], &*chunks.nth(0).unwrap());
    assert!(chunks.nth(0).is_none());
    assert!(chunks.nth(1).is_none());

    let mut chunks = Bytes::from_static(&[1, 2, 3, 4]).byte_chunks(2);
    assert_eq!(&[3, 4], &*chunks.nth(1).unwrap());
    assert!(chunks.nth(0).is_none());
    assert!(chunks.nth(1).is_none());
}

#[test]
fn next_back() {
    let mut chunks = Bytes::from_static(&[]).byte_chunks(2);
    assert!(chunks.next().is_none());

    let mut chunks = Bytes::from_static(&[1]).byte_chunks(2);
    assert_eq!(&[1], &*chunks.next_back().unwrap());
    assert!(chunks.next().is_none());

    let mut chunks = Bytes::from_static(&[1, 2]).byte_chunks(2);
    assert_eq!(&[1, 2], &*chunks.next_back().unwrap());
    assert!(chunks.next().is_none());

    let mut chunks = Bytes::from_static(&[1, 2, 3, 4]).byte_chunks(2);
    assert_eq!(&[3, 4], &*chunks.next_back().unwrap());
    assert_eq!(&[1, 2], &*chunks.next_back().unwrap());
    assert!(chunks.next().is_none());

    let mut chunks = Bytes::from_static(&[1, 2, 3, 4, 5]).byte_chunks(2);
    assert_eq!(&[5], &*chunks.next_back().unwrap());
    assert_eq!(&[3, 4], &*chunks.next_back().unwrap());
    assert_eq!(&[1, 2], &*chunks.next_back().unwrap());
    assert!(chunks.next().is_none());
}

#[test]
fn nth_back() {
    let mut chunks = Bytes::from_static(&[]).byte_chunks(2);
    assert!(chunks.nth_back(0).is_none());
    assert!(chunks.nth_back(1).is_none());

    let mut chunks = Bytes::from_static(&[1]).byte_chunks(2);
    assert_eq!(&[1], &*chunks.nth_back(0).unwrap());
    assert!(chunks.nth_back(0).is_none());
    assert!(chunks.nth_back(1).is_none());

    let mut chunks = Bytes::from_static(&[1, 2]).byte_chunks(2);
    assert_eq!(&[1, 2], &*chunks.nth_back(0).unwrap());
    assert!(chunks.nth_back(0).is_none());
    assert!(chunks.nth_back(1).is_none());

    let mut chunks = Bytes::from_static(&[1, 2, 3, 4]).byte_chunks(2);
    assert_eq!(&[3, 4], &*chunks.nth_back(0).unwrap());
    assert_eq!(&[1, 2], &*chunks.nth_back(0).unwrap());
    assert!(chunks.nth_back(0).is_none());
    assert!(chunks.nth_back(1).is_none());

    let mut chunks = Bytes::from_static(&[1, 2, 3, 4]).byte_chunks(2);
    assert_eq!(&[1, 2], &*chunks.nth_back(1).unwrap());
    assert!(chunks.nth_back(0).is_none());
    assert!(chunks.nth_back(1).is_none());

    let mut chunks = Bytes::from_static(&[1, 2, 3, 4, 5]).byte_chunks(2);
    assert_eq!(&[5], &*chunks.nth_back(0).unwrap());
    assert_eq!(&[3, 4], &*chunks.nth_back(0).unwrap());
    assert_eq!(&[1, 2], &*chunks.nth_back(0).unwrap());
    assert!(chunks.nth_back(0).is_none());
    assert!(chunks.nth_back(1).is_none());

    let mut chunks = Bytes::from_static(&[1, 2, 3, 4, 5]).byte_chunks(2);
    assert_eq!(&[3, 4], &*chunks.nth_back(1).unwrap());
    assert_eq!(&[1, 2], &*chunks.nth_back(0).unwrap());
    assert!(chunks.nth_back(0).is_none());
    assert!(chunks.nth_back(1).is_none());

    let mut chunks = Bytes::from_static(&[1, 2, 3, 4, 5]).byte_chunks(2);
    assert_eq!(&[1, 2], &*chunks.nth_back(2).unwrap());
    assert!(chunks.nth_back(0).is_none());
    assert!(chunks.nth_back(1).is_none());
}

#[test]
fn forward_then_exhausted() {
    let mut chunks = Bytes::from_static(&[1, 2, 3, 4, 5]).byte_chunks(2);
    assert_eq!(&[1, 2], &*chunks.next().unwrap());
    assert_eq!(&[3, 4], &*chunks.next().unwrap());
    assert_eq!(&[5], &*chunks.next().unwrap());
    assert!(chunks.next().is_none());
    assert!(chunks.next().is_none());
}

#[test]
fn nth_back_skips_remainder() {
    let mut chunks = Bytes::from_static(&[1, 2, 3, 4, 5]).byte_chunks(2);
    assert_eq!(&[3, 4], &*chunks.nth_back(1).unwrap());
    assert_eq!(&[1, 2], &*chunks.nth_back(0).unwrap());
    assert!(chunks.next_back().is_none());
}

#[test]
fn chunk_ranges_match_arithmetic() {
    let data: Vec<u8> = (0..23).collect();
    for k in 1..9usize {
        let mut chunks = Bytes::from(data.clone()).byte_chunks(k);
        let count = (data.len() + k - 1) / k;
        assert_eq!(count, chunks.len());
        for i in 0..count {
            let end = std::cmp::min(data.len(), (i + 1) * k);
            assert_eq!(&data[i * k..end], &*chunks.next().unwrap());
        }
        assert!(chunks.next().is_none());
    }
}

#[test]
fn nth_after_steps_equals_steps() {
    let data: Vec<u8> = (0..17).collect();
    for m in 0..4usize {
        for n in 0..4usize {
            let mut a = Bytes::from(data.clone()).byte_chunks(3);
            let mut b = Bytes::from(data.clone()).byte_chunks(3);
            for _ in 0..m {
                a.next();
                b.next();
            }
            let direct = a.nth(n);
            let mut stepped = None;
            for _ in 0..=n {
                stepped = b.next();
            }
            assert_eq!(direct, stepped);
            assert_eq!(a.next(), b.next());
        }
    }
}

#[test]
fn backward_is_reverse_of_forward() {
    let data: Vec<u8> = (0..11).collect();
    for k in 1..6usize {
        let mut forward = Vec::new();
        let mut chunks = Bytes::from(data.clone()).byte_chunks(k);
        while let Some(c) = chunks.next() {
            forward.push(c);
        }
        let mut backward = Vec::new();
        let mut chunks = Bytes::from(data.clone()).byte_chunks(k);
        while let Some(c) = chunks.next_back() {
            backward.push(c);
        }
        backward.reverse();
        assert_eq!(forward, backward);
    }
}

#[test]
fn size_hint_count_and_last() {
    let chunks = Bytes::from_static(&[1, 2, 3, 4, 5]).byte_chunks(2);
    assert_eq!((3, Some(3)), chunks.size_hint());
    assert_eq!(3, chunks.count());
    let chunks = Bytes::from_static(&[1, 2, 3, 4]).byte_chunks(2);
    assert_eq!((2, Some(2)), chunks.size_hint());
    assert_eq!(&[3, 4], &*chunks.last().unwrap());
    let chunks = Bytes::from_static(&[1, 2, 3, 4, 5]).byte_chunks(2);
    assert_eq!(&[5], &*chunks.last().unwrap());
    let chunks = Bytes::from_static(&[]).byte_chunks(3);
    assert_eq!((0, Some(0)), chunks.size_hint());
    assert!(chunks.last().is_none());
}

#[test]
fn nth_past_end_exhausts() {
    let mut chunks = Bytes::from_static(&[1, 2, 3, 4, 5]).byte_chunks(2);
    assert!(chunks.nth(3).is_none());
    assert!(chunks.next_back().is_none());
    let mut chunks = Bytes::from_static(&[1, 2, 3]).byte_chunks(2);
    assert!(chunks.nth(usize::MAX).is_none());
    let mut chunks = Bytes::from_static(&[1, 2, 3]).byte_chunks(usize::MAX);
    assert_eq!(&[1, 2, 3], &*chunks.nth(0).unwrap());
}
