use my_gzip::reader::Reader;
use my_gzip::ring_buffer::RingBuffer;

// Rebuilds the wrapped state `storage` with write cursor `next` using
// only `push`: ten admissions lay down the storage, `next` more move the
// cursor while restoring the overwritten prefix.
fn ring_state(storage: [u8; 10], next: usize) -> RingBuffer<u8> {
    let mut rb = RingBuffer::<u8>::new(10);
    for i in 0..10 {
        rb.push(storage[i]);
    }
    for i in 0..next {
        rb.push(storage[i]);
    }
    rb
}

#[test]
fn exact_capacity() {
    let cap = 10;
    let rb = RingBuffer::<u8>::new(cap);
    assert_eq!(rb.capacity(), cap);
}

#[test]
fn push_does_not_expand_capacity() {
    let cap = 10;
    let mut rb = RingBuffer::<u8>::new(cap);

    for i in 0..20 {
        rb.push(i);
        assert_eq!(rb.capacity(), cap);
    }
}

#[test]
fn push_overwrites_when_wrapped() {
    let mut rb = RingBuffer::<u8>::new(10);

    for i in 0..10 {
        rb.push(i);
    }

    assert_eq!(rb.as_slices(), (&[0, 1, 2, 3, 4, 5, 6, 7, 8, 9][..], &[][..]),);

    for i in 10..13 {
        rb.push(i);
    }

    assert_eq!(rb.as_slices(), (&[3, 4, 5, 6, 7, 8, 9][..], &[10, 11, 12][..]),);
}

#[test]
fn as_mut_slices_exposes_contents_for_in_place_edits() {
    let mut rb = RingBuffer::<u8>::new(10);
    for i in 0..13 {
        rb.push(i);
    }

    // wrapped: [3..=9] then [10, 11, 12]
    let (first, second) = rb.as_mut_slices();
    assert_eq!(first, &[3, 4, 5, 6, 7, 8, 9][..]);
    assert_eq!(second, &[10, 11, 12][..]);
    first[0] = 30;
    second[2] = 120;

    assert_eq!(rb.as_slices(), (&[30, 4, 5, 6, 7, 8, 9][..], &[10, 11, 120][..]));
}

#[test]
fn copy_within_works_when_buffer_is_not_fully_filled() {
    fn setup() -> RingBuffer<u8> {
        let mut rb = RingBuffer::new(10);
        for i in 0..5 {
            rb.push(i);
        }
        rb
    }

    let mut rb = setup();

    let copied = rb.copy_within(4, 2);
    assert_eq!((copied.0.as_slice(), copied.1.as_slice()), (&[1, 2][..], &[][..]));
    assert_eq!(rb.as_slices(), (&[0, 1, 2, 3, 4, 1, 2][..], &[][..]));

    let mut rb = setup();

    let copied = rb.copy_within(3, 4);
    assert_eq!((copied.0.as_slice(), copied.1.as_slice()), (&[2, 3, 4, 2][..], &[][..]));
    assert_eq!(rb.as_slices(), (&[0, 1, 2, 3, 4, 2, 3, 4, 2][..], &[][..]));

    let mut rb = setup();

    let copied = rb.copy_within(3, 7);
    assert_eq!((copied.0.as_slice(), copied.1.as_slice()), (&[2, 3, 4, 2, 3][..], &[4, 2][..]));
    assert_eq!(rb.as_slices(), (&[2, 3, 4, 2, 3, 4, 2, 3][..], &[4, 2][..]));

    let mut rb = setup();

    let copied = rb.copy_within(2, 8);
    assert_eq!((copied.0.as_slice(), copied.1.as_slice()), (&[3, 4, 3, 4, 3][..], &[4, 3, 4][..]));
    assert_eq!(rb.as_slices(), (&[3, 4, 3, 4, 3, 4, 3][..], &[4, 3, 4][..]));
}

#[test]
fn copy_within_works_when_src_and_dest_do_not_overlap() {
    let mut rb = RingBuffer::<u8>::new(10);

    for i in 0..15 {
        rb.push(i);
    }

    let copied = rb.copy_within(4, 3);
    assert_eq!((copied.0.as_slice(), copied.1.as_slice()), (&[11, 12, 13][..], &[][..]));
    assert_eq!(rb.as_slices(), (&[8, 9][..], &[10, 11, 12, 13, 14, 11, 12, 13][..]),);

    let copied = rb.copy_within(4, 3);
    assert_eq!((copied.0.as_slice(), copied.1.as_slice()), (&[14, 11][..], &[12][..]));
    assert_eq!(rb.as_slices(), (&[11, 12, 13, 14, 11, 12, 13, 14, 11][..], &[12][..]),);

    let copied = rb.copy_within(3, 3);
    assert_eq!((copied.0.as_slice(), copied.1.as_slice()), (&[14, 11, 12][..], &[][..]));
    assert_eq!(rb.as_slices(), (&[14, 11, 12, 13, 14, 11][..], &[12, 14, 11, 12][..]),);
}

#[test]
fn copy_within_works_when_src_and_dest_overlap() {
    fn setup() -> RingBuffer<u8> {
        let mut rb = RingBuffer::new(10);
        for i in 0..15 {
            rb.push(i);
        }
        rb
    }

    let mut rb = setup();

    let copied = rb.copy_within(2, 4);
    assert_eq!((copied.0.as_slice(), copied.1.as_slice()), (&[13, 14, 13, 14][..], &[][..]));
    assert_eq!(rb.as_slices(), (&[9][..], &[10, 11, 12, 13, 14, 13, 14, 13, 14][..]),);

    let mut rb = setup();

    let copied = rb.copy_within(8, 3);
    assert_eq!((copied.0.as_slice(), copied.1.as_slice()), (&[7, 8, 9][..], &[][..]));
    assert_eq!(rb.as_slices(), (&[8, 9][..], &[10, 11, 12, 13, 14, 7, 8, 9][..]),);

    let mut rb = setup();

    let copied = rb.copy_within(7, 4);
    assert_eq!((copied.0.as_slice(), copied.1.as_slice()), (&[8, 9, 10, 11][..], &[][..]));
    assert_eq!(rb.as_slices(), (&[9][..], &[10, 11, 12, 13, 14, 8, 9, 10, 11][..]),);

    let mut rb = ring_state([10, 11, 12, 13, 14, 5, 6, 7, 8, 9], 2);

    let copied = rb.copy_within(3, 4);
    assert_eq!((copied.0.as_slice(), copied.1.as_slice()), (&[9, 10, 11, 9][..], &[][..]));
    assert_eq!(rb.as_slices(), (&[6, 7, 8, 9][..], &[10, 11, 9, 10, 11, 9][..]),);

    let mut rb = ring_state([10, 11, 12, 13, 14, 5, 6, 7, 8, 9], 8);

    let copied = rb.copy_within(7, 4);
    assert_eq!((copied.0.as_slice(), copied.1.as_slice()), (&[11, 12][..], &[13, 14][..]));
    assert_eq!(rb.as_slices(), (&[12, 13, 14, 5, 6, 7, 11, 12][..], &[13, 14][..]),);

    let mut rb = ring_state([10, 11, 12, 13, 14, 5, 6, 7, 8, 9], 8);

    let copied = rb.copy_within(2, 4);
    assert_eq!((copied.0.as_slice(), copied.1.as_slice()), (&[6, 7][..], &[6, 7][..]));
    assert_eq!(rb.as_slices(), (&[12, 13, 14, 5, 6, 7, 6, 7][..], &[6, 7][..]),);

    let mut rb = ring_state([10, 11, 12, 13, 14, 5, 6, 7, 8, 9], 7);

    let copied = rb.copy_within(9, 4);
    assert_eq!((copied.0.as_slice(), copied.1.as_slice()), (&[8, 9, 10][..], &[11][..]));
    assert_eq!(rb.as_slices(), (&[11, 12, 13, 14, 5, 6, 8, 9, 10][..], &[11][..]),);

    let mut rb = ring_state([10, 11, 12, 13, 14, 5, 6, 7, 8, 9], 9);

    let copied = rb.copy_within(1, 4);
    assert_eq!((copied.0.as_slice(), copied.1.as_slice()), (&[8][..], &[8, 8, 8][..]));
    assert_eq!(rb.as_slices(), (&[13, 14, 5, 6, 7, 8, 8][..], &[8, 8, 8][..]),);
}

#[test]
fn copy_within_works_when_distance_equals_to_capacity() {
    let cap = 10;
    let mut rb = RingBuffer::<u8>::new(cap);

    for i in 0..15 {
        rb.push(i);
    }

    let buf = [10, 11, 12, 13, 14, 5, 6, 7, 8, 9];

    let copied = rb.copy_within(cap, 3);
    assert_eq!((copied.0.as_slice(), copied.1.as_slice()), (&[5, 6, 7][..], &[][..]));
    assert_eq!(rb.as_slices(), (&buf[8..], &buf[..8]));

    let copied = rb.copy_within(cap, 3);
    assert_eq!((copied.0.as_slice(), copied.1.as_slice()), (&[8, 9][..], &[10][..]));
    assert_eq!(rb.as_slices(), (&buf[1..], &buf[..1]));

    let copied = rb.copy_within(cap, cap);
    assert_eq!((copied.0.as_slice(), copied.1.as_slice()), (&buf[1..], &buf[..1]));
    assert_eq!(rb.as_slices(), (&buf[1..], &buf[..1]));
}

#[test]
fn copy_from_works_when_buffer_is_not_fully_filled() {
    fn setup() -> RingBuffer<u8> {
        let mut rb = RingBuffer::new(10);
        for i in 0..5 {
            rb.push(i);
        }
        rb
    }

    let buf = vec![20, 21, 22, 23, 24, 25, 26, 27, 28, 29];

    let mut rb = setup();

    let ret = rb.copy_from(&mut Reader::new(buf.clone()), 0);
    assert!(ret.is_ok());
    let pair = ret.unwrap();
    assert_eq!((pair.0.as_slice(), pair.1.as_slice()), (&[][..], &[][..]));
    assert_eq!(rb.as_slices(), (&[0, 1, 2, 3, 4][..], &[][..]));

    let mut rb = setup();

    let ret = rb.copy_from(&mut Reader::new(buf.clone()), 3);
    assert!(ret.is_ok());
    let pair = ret.unwrap();
    assert_eq!((pair.0.as_slice(), pair.1.as_slice()), (&[20, 21, 22][..], &[][..]));
    assert_eq!(rb.as_slices(), (&[0, 1, 2, 3, 4, 20, 21, 22][..], &[][..]));

    let mut rb = setup();

    let ret = rb.copy_from(&mut Reader::new(buf.clone()), 6);
    assert!(ret.is_ok());
    let pair = ret.unwrap();
    assert_eq!((pair.0.as_slice(), pair.1.as_slice()), (&[20, 21, 22, 23, 24][..], &[25][..]));
    assert_eq!(rb.as_slices(), (&[1, 2, 3, 4, 20, 21, 22, 23, 24][..], &[25][..]),);

    let mut rb = setup();

    let ret = rb.copy_from(&mut Reader::new(buf.clone()), 10);
    assert!(ret.is_ok());
    let pair = ret.unwrap();
    assert_eq!(
        (pair.0.as_slice(), pair.1.as_slice()),
        (&[20, 21, 22, 23, 24][..], &[25, 26, 27, 28, 29][..]),
    );
    assert_eq!(rb.as_slices(), (&[20, 21, 22, 23, 24][..], &[25, 26, 27, 28, 29][..]),);
}

#[test]
fn copy_from_works_when_wrapped() {
    fn setup() -> RingBuffer<u8> {
        let mut rb = RingBuffer::new(10);
        for i in 0..15 {
            rb.push(i);
        }
        rb
    }

    let buf = vec![20, 21, 22, 23, 24, 25, 26, 27, 28, 29];

    let mut rb = setup();

    let ret = rb.copy_from(&mut Reader::new(buf.clone()), 0);
    assert!(ret.is_ok());
    let pair = ret.unwrap();
    assert_eq!((pair.0.as_slice(), pair.1.as_slice()), (&[][..], &[][..]));
    assert_eq!(rb.as_slices(), (&[5, 6, 7, 8, 9][..], &[10, 11, 12, 13, 14][..]),);

    let mut rb = setup();

    let ret = rb.copy_from(&mut Reader::new(buf.clone()), 3);
    assert!(ret.is_ok());
    let pair = ret.unwrap();
    assert_eq!((pair.0.as_slice(), pair.1.as_slice()), (&[20, 21, 22][..], &[][..]));
    assert_eq!(rb.as_slices(), (&[8, 9][..], &[10, 11, 12, 13, 14, 20, 21, 22][..]),);

    let mut rb = setup();

    let ret = rb.copy_from(&mut Reader::new(buf.clone()), 6);
    assert!(ret.is_ok());
    let pair = ret.unwrap();
    assert_eq!((pair.0.as_slice(), pair.1.as_slice()), (&[20, 21, 22, 23, 24][..], &[25][..]));
    assert_eq!(rb.as_slices(), (&[11, 12, 13, 14, 20, 21, 22, 23, 24][..], &[25][..]),);

    let mut rb = setup();

    let ret = rb.copy_from(&mut Reader::new(buf.clone()), 10);
    assert!(ret.is_ok());
    let pair = ret.unwrap();
    assert_eq!(
        (pair.0.as_slice(), pair.1.as_slice()),
        (&[20, 21, 22, 23, 24][..], &[25, 26, 27, 28, 29][..]),
    );
    assert_eq!(rb.as_slices(), (&[20, 21, 22, 23, 24][..], &[25, 26, 27, 28, 29][..]),);
}

#[test]
fn copy_from_returns_error_when_reader_cannot_read_length_bytes() {
    fn setup() -> RingBuffer<u8> {
        let mut rb = RingBuffer::new(10);
        for i in 0..15 {
            rb.push(i);
        }
        rb
    }

    let buf = vec![20, 21, 22, 23, 24, 25, 26, 27, 28, 29];

    let mut rb = setup();

    let ret = rb.copy_from(&mut Reader::new(buf[..3].to_vec()), 5);
    assert!(ret.is_err());
}
