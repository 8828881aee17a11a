use worlddat::stream::{Async, SendStream, Stream, StreamError, TestStream};

#[test]
fn test_io_read_write() {
    let (mut s1, mut s2) = TestStream::new_pair();
    let msg = b"Foo!";
    let sent_bytes = s1.write(msg).unwrap();
    assert_eq!(sent_bytes, msg.len());
    s1.flush().unwrap();
    let recv_buf = &mut vec![0; 4];
    let received_bytes = s2.read(recv_buf).unwrap();
    assert_eq!(received_bytes, msg.len());
    assert_eq!(recv_buf, msg);

    let received_bytes = s2.read(recv_buf).unwrap();
    assert_eq!(received_bytes, 0);
}

#[test]
fn test_async_io_read_write() {
    let (mut s1, mut s2) = TestStream::new_pair();
    let msg = b"Foo!";
    let sent_bytes = s1.poll_write(msg).unwrap();
    assert_eq!(sent_bytes, Async::Ready(msg.len()));
    s1.poll_flush().unwrap();
    let recv_buf = &mut vec![0; 4];
    let received_bytes = s2.poll_read(recv_buf).unwrap();
    assert_eq!(received_bytes, Async::Ready(msg.len()));
    assert_eq!(recv_buf, msg);

    let received_bytes = s2.poll_read(recv_buf).unwrap();
    assert_eq!(received_bytes, Async::Ready(0));
}

#[test]
fn test_quinn_io_read_write() {
    let (mut s1, mut s2) = TestStream::new_pair();
    let msg = b"Foo!";
    let sent_bytes = s1.poll_write(msg).unwrap();
    assert_eq!(sent_bytes, Async::Ready(msg.len()));
    let recv_buf = &mut vec![0; 4];
    let received_bytes = s2.poll_read(recv_buf).unwrap();
    assert_eq!(received_bytes, Async::Ready(msg.len()));
    assert_eq!(recv_buf, msg);

    let received_bytes = s2.poll_read(recv_buf).unwrap();
    assert_eq!(received_bytes, Async::Ready(0));
}

#[test]
fn both_directions_are_separate() {
    let (mut s1, mut s2) = TestStream::new_pair();
    s1.write(b"ab").unwrap();
    s2.write(b"xyz").unwrap();
    let mut buf = [7u8; 5];
    assert_eq!(s1.read(&mut buf), Ok(3));
    assert_eq!(&buf, b"xyz\x07\x07");
    assert_eq!(s2.read(&mut buf[..1]), Ok(1));
    assert_eq!(&buf, b"ayz\x07\x07");
    assert_eq!(s2.read(&mut buf), Ok(1));
    assert_eq!(&buf, b"byz\x07\x07");
}

#[test]
fn reading_into_no_room_reads_nothing() {
    let (mut s1, s2) = TestStream::new_pair();
    drop(s2);
    assert_eq!(s1.read(&mut []), Ok(0));
    assert_eq!(s1.poll_read(&mut []), Ok(Async::Ready(0)));
    assert_eq!(s1.poll_read_unordered(), Ok(Async::Ready((vec![], 0))));
}

#[test]
fn an_end_that_is_gone_is_an_error() {
    let (mut s1, mut s2) = TestStream::new_pair();
    s2.write(b"ab").unwrap();
    drop(s2);
    assert_eq!(s1.write(b"x"), Err(StreamError::NotConnected));
    assert_eq!(s1.poll_write(b"x"), Err(StreamError::NotConnected));
    assert_eq!(s1.write(b""), Ok(0));
    let mut buf = [0u8; 2];
    assert_eq!(s1.read(&mut buf), Ok(2));
    assert_eq!(&buf, b"ab");
    assert_eq!(s1.read(&mut buf), Err(StreamError::NotConnected));
    assert_eq!(s1.poll_read(&mut buf), Err(StreamError::Finished));
}

#[test]
fn ending_a_stream_does_nothing() {
    let (mut s1, mut s2) = TestStream::new_pair();
    assert_eq!(s1.poll_finish(), Ok(Async::Ready(())));
    assert_eq!(s1.shutdown(), Ok(Async::Ready(())));
    s1.reset(3);
    s2.stop(4);
    s1.write(b"q").unwrap();
    let mut buf = [0u8; 1];
    assert_eq!(s2.read(&mut buf), Ok(1));
    assert_eq!(&buf, b"q");
}

#[test]
fn a_read_takes_what_is_there_and_no_more() {
    let (mut s1, mut s2) = TestStream::new_pair();
    s1.write(b"ab").unwrap();
    let mut buf = [9; 4];
    assert_eq!(s2.read(&mut buf), Ok(2));
    assert_eq!(&buf, b"ab\x09\x09");
    s1.write(b"cdefg").unwrap();
    assert_eq!(s2.poll_read(&mut buf), Ok(Async::Ready(4)));
    assert_eq!(&buf, b"cdef");
    // The end is found to be gone only after what was sent before.
    drop(s1);
    assert_eq!(s2.read(&mut buf), Err(StreamError::NotConnected));
    assert_eq!(buf[0], b'g');
}

#[test]
fn writes_and_reads_of_any_size_keep_the_order() {
    let (mut s1, mut s2) = TestStream::new_pair();
    let mut got = vec![];
    for part in [&b"ab"[..], b"", b"cdefg", b"h"] {
        assert_eq!(s1.write(part), Ok(part.len()));
        assert_eq!(s2.write(b"!"), Ok(1));
        let mut buf = [0; 3];
        let n = s2.read(&mut buf).unwrap();
        got.extend_from_slice(&buf[..n]);
    }
    let mut buf = [0; 9];
    let n = s2.read(&mut buf).unwrap();
    got.extend_from_slice(&buf[..n]);
    assert_eq!(got, b"abcdefgh");
    assert_eq!(s1.read(&mut buf), Ok(4));
    assert_eq!(&buf[..4], b"!!!!");
}

#[test]
fn a_write_breaks_off_where_the_other_end_is_gone() {
    let (mut s1, s2) = TestStream::new_pair();
    assert_eq!(s1.write(b"ab"), Ok(2));
    drop(s2);
    assert_eq!(s1.write(b"c"), Err(StreamError::NotConnected));
    assert_eq!(s1.poll_write(b"d"), Err(StreamError::NotConnected));
    assert_eq!(s1.write(b""), Ok(0));
}

#[test]
fn with_both_ends_at_hand_a_read_gives_back_a_write() {
    let (mut s1, mut s2) = TestStream::new_pair();
    let mut buf = [0; 4];
    assert_eq!(s2.read_beside(&s1, &mut buf), 0);
    assert_eq!(s1.write_beside(&s2, b"Foo!"), 4);
    assert_eq!(s2.read_beside(&s1, &mut buf), 4);
    assert_eq!(&buf, b"Foo!");
    assert_eq!(s2.read_beside(&s1, &mut buf), 0);
    assert_eq!(s1.write_beside(&s2, b"abcdef"), 6);
    assert_eq!(s2.read_beside(&s1, &mut buf), 4);
    assert_eq!(&buf, b"abcd");
    assert_eq!(s2.read_beside(&s1, &mut buf), 2);
    assert_eq!(&buf, b"efcd");
    // Nothing went the other way.
    assert_eq!(s1.read_beside(&s2, &mut buf), 0);
    assert_eq!(s1.write_beside(&s2, b""), 0);
}
