use p2p_messaging::{encode, Decimal, DecodeError, FrameError, FrameReader, Message, MAX_PAYLOAD};

fn msg(key: &str, units: i64) -> Message {
    Message { key: key.to_string(), value: Decimal { units, scale: 0 } }
}

#[test]
fn two_messages_fed_one_byte_at_a_time() {
    let first = msg("temperature", 20);
    let second = Message { key: "temperature".to_string(), value: Decimal { units: 215, scale: 1 } };
    let mut stream = encode(&first);
    stream.extend(encode(&second));
    let mut reader = FrameReader::new(MAX_PAYLOAD);
    let mut got = Vec::new();
    for b in stream.iter() {
        let (events, error) = reader.receive(&[*b]);
        assert_eq!(error, None);
        got.extend(events);
    }
    assert_eq!(got, vec![Ok(first), Ok(second)]);
    assert_eq!(reader.buffered_len(), 0);
}

#[test]
fn garbage_then_valid_frame() {
    let mut reader = FrameReader::new(MAX_PAYLOAD);
    let mut stream = b"garbage,".to_vec();
    stream.extend(encode(&msg("temperature", 22)));
    let (got, error) = reader.receive(&stream);
    assert_eq!(error, None);
    assert_eq!(got, vec![Err(DecodeError::Malformed), Ok(msg("temperature", 22))]);
}

#[test]
fn partial_frame_waits_for_delimiter() {
    let mut reader = FrameReader::new(MAX_PAYLOAD);
    assert_eq!(reader.feed(b"a;1;e"), (vec![], None));
    assert_eq!(reader.buffered_len(), 5);
    assert_eq!(reader.feed(b"nd,b"), (vec![b"a;1;end,".to_vec()], None));
    assert_eq!(reader.buffered_len(), 1);
    assert_eq!(reader.feed(b""), (vec![], None));
}

#[test]
fn empty_frames_are_kept() {
    let mut reader = FrameReader::new(4);
    assert_eq!(reader.feed(b",,"), (vec![b",".to_vec(), b",".to_vec()], None));
}

#[test]
fn oversized_frame_fails() {
    let mut reader = FrameReader::new(4);
    assert_eq!(reader.feed(b"abcd,"), (vec![b"abcd,".to_vec()], None));
    assert_eq!(reader.feed(b"abc"), (vec![], None));
    assert_eq!(reader.feed(b"de,"), (vec![], Some(FrameError::FrameTooLarge)));
    assert_eq!(reader.buffered_len(), 0);
    let mut big = FrameReader::new(MAX_PAYLOAD);
    assert_eq!(
        big.receive(&vec![b'x'; MAX_PAYLOAD + 1]),
        (vec![], Some(FrameError::FrameTooLarge))
    );
}

#[test]
fn frames_before_an_overflow_are_kept_in_one_read() {
    let m = msg("temperature", 20);
    let mut stream = encode(&m);
    stream.extend(vec![b'x'; MAX_PAYLOAD + 1]);
    let mut whole = FrameReader::new(MAX_PAYLOAD);
    let (events, error) = whole.receive(&stream);
    assert_eq!(events, vec![Ok(m.clone())]);
    assert_eq!(error, Some(FrameError::FrameTooLarge));
    let cut = encode(&m).len();
    let mut pieces = FrameReader::new(MAX_PAYLOAD);
    let (first, e1) = pieces.receive(&stream[..cut]);
    let (second, e2) = pieces.receive(&stream[cut..]);
    assert_eq!(first, vec![Ok(m)]);
    assert_eq!(e1, None);
    assert_eq!(second, vec![]);
    assert_eq!(e2, Some(FrameError::FrameTooLarge));
    let mut small = FrameReader::new(4);
    assert_eq!(
        small.feed(b"ab,cd,efghij,k,"),
        (vec![b"ab,".to_vec(), b"cd,".to_vec()], Some(FrameError::FrameTooLarge))
    );
}

#[test]
fn line_breaks_between_records_are_ignored() {
    let mut reader = FrameReader::new(MAX_PAYLOAD);
    let (events, error) = reader.receive(b"temperature;20;end,\r\n temperature;21;end,\n");
    assert_eq!(error, None);
    assert_eq!(events, vec![Ok(msg("temperature", 20)), Ok(msg("temperature", 21))]);
    assert_eq!(reader.buffered_len(), 1);
}
