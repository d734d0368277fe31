use p2p_messaging::{
    decode, encode, parse_decimal, split, write_decimal, Decimal, DecodeError, Message,
};

fn dec(units: i64, scale: u8) -> Decimal {
    Decimal { units, scale }
}

fn msg(key: &str, units: i64, scale: u8) -> Message {
    Message { key: key.to_string(), value: dec(units, scale) }
}

#[test]
fn encode_writes_key_value_and_end_marker() {
    assert_eq!(encode(&msg("temperature", 20, 0)), b"temperature;20;end,".to_vec());
    assert_eq!(encode(&msg("t", -7, 0)), b"t;-7;end,".to_vec());
    assert_eq!(encode(&msg("", 0, 0)), b";0;end,".to_vec());
}

#[test]
fn decode_reads_a_frame() {
    assert_eq!(decode(b"temperature;21;end,"), Ok(msg("temperature", 21, 0)));
    assert_eq!(decode(b"humidity;-3;end"), Ok(msg("humidity", -3, 0)));
    assert_eq!(decode(b"humidity;4.5;end \r\n,"), Ok(msg("humidity", 45, 1)));
    assert_eq!(decode(b"humidity;4.5;end x,"), Err(DecodeError::Malformed));
    assert_eq!(decode(b"\n\t humidity;4.5;end,"), Ok(msg("humidity", 45, 1)));
    assert_eq!(decode(b" ;4.5;end,"), Ok(msg("", 45, 1)));
}

#[test]
fn round_trip_keeps_the_message() {
    let cases = [
        msg("temperature", 20, 0),
        msg("temperature", 205, 1),
        msg("pressure", i64::MAX, 3),
        msg("x", i64::MIN, 0),
        msg("x", i64::MIN, 19),
        msg("Grad °C", 0, 2),
        msg("", -1, 0),
        msg("small", -5, 255),
    ];
    for m in cases.iter() {
        assert_eq!(decode(&encode(m)), Ok(m.clone()));
    }
}

#[test]
fn decode_rejects_malformed_frames() {
    assert_eq!(decode(b"garbage,"), Err(DecodeError::Malformed));
    assert_eq!(decode(b"a;1,"), Err(DecodeError::Malformed));
    assert_eq!(decode(b"a;1;end;x,"), Err(DecodeError::Malformed));
    assert_eq!(decode(b"a;1;END,"), Err(DecodeError::Malformed));
    assert_eq!(decode(b"a;20,5;end,"), Err(DecodeError::Malformed));
    assert_eq!(decode(b"a;1.2.3;end,"), Err(DecodeError::Malformed));
    assert_eq!(decode(b"a;.5;end,"), Err(DecodeError::Malformed));
    assert_eq!(decode(b"a;5.;end,"), Err(DecodeError::Malformed));
    assert_eq!(decode(b"a;;end,"), Err(DecodeError::Malformed));
    assert_eq!(decode(b"a;-;end,"), Err(DecodeError::Malformed));
    assert_eq!(decode(b"a;9223372036854775808;end,"), Err(DecodeError::Malformed));
    assert_eq!(decode(b""), Err(DecodeError::Malformed));
}

#[test]
fn decode_replaces_invalid_utf8_in_key() {
    let m = decode(b"ab\xffc;5;end,").unwrap();
    assert_eq!(m.key, "ab\u{FFFD}c");
    assert_eq!(m.value, dec(5, 0));
}

#[test]
fn decimals_are_written_and_read() {
    let mut out = b"v=".to_vec();
    write_decimal(&mut out, dec(-120, 0));
    assert_eq!(out, b"v=-120".to_vec());
    let cases: [(i64, u8, &[u8]); 6] = [
        (205, 1, b"20.5"),
        (-5, 2, b"-0.05"),
        (2150, 2, b"21.50"),
        (0, 3, b"0.000"),
        (7, 0, b"7"),
        (-1234, 1, b"-123.4"),
    ];
    for (units, scale, text) in cases.iter() {
        let mut out = Vec::new();
        write_decimal(&mut out, dec(*units, *scale));
        assert_eq!(out, text.to_vec());
        assert_eq!(parse_decimal(text), Some(dec(*units, *scale)));
    }
    assert_eq!(parse_decimal(b"0042"), Some(dec(42, 0)));
    assert_eq!(parse_decimal(b"-0"), Some(dec(0, 0)));
    assert_eq!(parse_decimal(b"-0.0"), Some(dec(0, 1)));
    assert_eq!(parse_decimal(b"-9223372036854775808"), Some(dec(i64::MIN, 0)));
    assert_eq!(parse_decimal(b"922337203685477580.7"), Some(dec(i64::MAX, 1)));
    assert_eq!(parse_decimal(b"9223372036854775808"), None);
    assert_eq!(parse_decimal(b"-9223372036854775809"), None);
    assert_eq!(parse_decimal(b"+1"), None);
    assert_eq!(parse_decimal(b"-"), None);
    assert_eq!(parse_decimal(b""), None);
    assert_eq!(parse_decimal(b"1e3"), None);
    let mut long = b"0.".to_vec();
    long.extend(vec![b'0'; 255]);
    assert_eq!(parse_decimal(&long), Some(dec(0, 255)));
    long.push(b'0');
    assert_eq!(parse_decimal(&long), None);
}

#[test]
fn split_separates_fields() {
    assert_eq!(split(b"a;b;;c"), vec![b"a".to_vec(), b"b".to_vec(), vec![], b"c".to_vec()]);
    assert_eq!(split(b""), vec![Vec::<u8>::new()]);
}
