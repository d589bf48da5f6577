use bytes::BytesMut;
use resp_codec::{Error, FromResp, RespCodec, RespValue};

fn buffer(bytes: &[u8]) -> BytesMut {
    let mut buf = BytesMut::new();
    buf.extend_from_slice(bytes);
    buf
}

fn encoded(value: &RespValue) -> Vec<u8> {
    let mut bytes = BytesMut::new();
    let mut codec = RespCodec;
    codec.encode(value.clone(), &mut bytes).unwrap();
    bytes.to_vec()
}

fn sample_values() -> Vec<RespValue> {
    vec![
        RespValue::Integer(0),
        RespValue::Integer(42),
        RespValue::Integer(usize::MAX),
        RespValue::BulkString(Vec::new()),
        RespValue::BulkString(b"THISISATEST".to_vec()),
        RespValue::BulkString(b"with\r\nline end and \xff\x00 bytes".to_vec()),
        RespValue::SimpleString(String::new()),
        RespValue::SimpleString("OK".to_string()),
        RespValue::SimpleString("caf\u{e9} \u{1F600}".to_string()),
        RespValue::Error("ERR wrong type".to_string()),
        RespValue::Array(Vec::new()),
        RespValue::Array(vec![
            RespValue::Integer(7),
            RespValue::Array(vec![
                RespValue::BulkString(b"a".to_vec()),
                RespValue::Array(Vec::new()),
                RespValue::SimpleString("x".to_string()),
            ]),
            RespValue::Error("boom".to_string()),
            RespValue::BulkString(b"$5\r\n".to_vec()),
        ]),
    ]
}

#[test]
fn test_bulk_string() {
    let resp_object = RespValue::BulkString("THISISATEST".as_bytes().to_vec());
    let mut bytes = BytesMut::new();
    let mut codec = RespCodec;
    codec.encode(resp_object.clone(), &mut bytes).unwrap();
    assert_eq!(b"$11\r\nTHISISATEST\r\n".to_vec(), bytes.to_vec());

    let deserialized = codec.decode(&mut bytes).unwrap().unwrap();
    assert_eq!(deserialized, resp_object);
}

#[test]
fn test_array() {
    let resp_object = RespValue::Array(vec!["TEST1".into(), "TEST2".into()]);
    let mut bytes = BytesMut::new();
    let mut codec = RespCodec;
    codec.encode(resp_object.clone(), &mut bytes).unwrap();
    assert_eq!(
        b"*2\r\n$5\r\nTEST1\r\n$5\r\nTEST2\r\n".to_vec(),
        bytes.to_vec()
    );

    let deserialized = codec.decode(&mut bytes).unwrap().unwrap();
    assert_eq!(deserialized, resp_object);
}

#[test]
fn bulk_string_frame_is_eighteen_bytes_and_is_consumed_whole() {
    let resp_object = RespValue::BulkString(b"THISISATEST".to_vec());
    let mut bytes = BytesMut::new();
    let mut codec = RespCodec;
    codec.encode(resp_object.clone(), &mut bytes).unwrap();
    assert_eq!(bytes.len(), 18);
    assert_eq!(codec.decode(&mut bytes).unwrap(), Some(resp_object));
    assert_eq!(bytes.len(), 0);
}

#[test]
fn encode_appends_to_what_the_buffer_holds() {
    let mut bytes = buffer(b"+OK\r\n");
    let mut codec = RespCodec;
    codec.encode(RespValue::Integer(12), &mut bytes).unwrap();
    codec
        .encode(RespValue::Error("ERR".to_string()), &mut bytes)
        .unwrap();
    assert_eq!(bytes.to_vec(), b"+OK\r\n:12\r\n-ERR\r\n".to_vec());
}

#[test]
fn encode_each_kind_of_value() {
    assert_eq!(encoded(&RespValue::Array(Vec::new())), b"*0\r\n".to_vec());
    assert_eq!(encoded(&RespValue::BulkString(Vec::new())), b"$0\r\n\r\n".to_vec());
    assert_eq!(
        encoded(&RespValue::BulkString(b"a\r\nb".to_vec())),
        b"$4\r\na\r\nb\r\n".to_vec()
    );
    assert_eq!(
        encoded(&RespValue::Error("ERR wrong type".to_string())),
        b"-ERR wrong type\r\n".to_vec()
    );
    assert_eq!(encoded(&RespValue::Integer(0)), b":0\r\n".to_vec());
    assert_eq!(encoded(&RespValue::Integer(1234567890)), b":1234567890\r\n".to_vec());
    assert_eq!(
        encoded(&RespValue::Integer(usize::MAX)),
        format!(":{}\r\n", usize::MAX).into_bytes()
    );
    assert_eq!(
        encoded(&RespValue::SimpleString("PONG".to_string())),
        b"+PONG\r\n".to_vec()
    );
    assert_eq!(
        encoded(&RespValue::SimpleString("caf\u{e9}".to_string())),
        b"+caf\xc3\xa9\r\n".to_vec()
    );
    assert_eq!(
        encoded(&RespValue::Array(vec![
            RespValue::Integer(1),
            RespValue::Array(vec![RespValue::SimpleString("a".to_string())]),
        ])),
        b"*2\r\n:1\r\n*1\r\n+a\r\n".to_vec()
    );
}

#[test]
fn encode_writes_ten_and_more_items_with_a_two_digit_count() {
    let items: Vec<RespValue> = (0..12).map(RespValue::Integer).collect();
    let bytes = encoded(&RespValue::Array(items));
    assert_eq!(
        bytes,
        b"*12\r\n:0\r\n:1\r\n:2\r\n:3\r\n:4\r\n:5\r\n:6\r\n:7\r\n:8\r\n:9\r\n:10\r\n:11\r\n".to_vec()
    );
}

#[test]
fn round_trip_of_every_sample() {
    for value in sample_values() {
        let mut bytes = BytesMut::new();
        let mut codec = RespCodec;
        codec.encode(value.clone(), &mut bytes).unwrap();
        let decoded = codec.decode(&mut bytes).unwrap();
        assert_eq!(decoded, Some(value));
        assert_eq!(bytes.len(), 0);
    }
}

#[test]
fn a_frame_cut_anywhere_is_incomplete_and_stays_in_the_buffer() {
    for value in sample_values() {
        let whole = encoded(&value);
        for cut in 1..whole.len() {
            let mut bytes = buffer(&whole[..cut]);
            let mut codec = RespCodec;
            assert_eq!(codec.decode(&mut bytes).unwrap(), None);
            assert_eq!(bytes.to_vec(), whole[..cut].to_vec());

            bytes.extend_from_slice(&whole[cut..]);
            assert_eq!(codec.decode(&mut bytes).unwrap(), Some(value.clone()));
            assert_eq!(bytes.len(), 0);
        }
    }
}

#[test]
fn an_empty_buffer_is_incomplete() {
    let mut bytes = BytesMut::new();
    let mut codec = RespCodec;
    assert_eq!(codec.decode(&mut bytes).unwrap(), None);
    assert_eq!(bytes.len(), 0);
}

#[test]
fn bulk_string_in_two_deliveries() {
    let mut bytes = buffer(b"$5\r\nHE");
    let mut codec = RespCodec;
    assert_eq!(codec.decode(&mut bytes).unwrap(), None);
    assert_eq!(bytes.to_vec(), b"$5\r\nHE".to_vec());
    bytes.extend_from_slice(b"LLO\r\n");
    assert_eq!(
        codec.decode(&mut bytes).unwrap(),
        Some(RespValue::BulkString(b"HELLO".to_vec()))
    );
    assert_eq!(bytes.len(), 0);
}

#[test]
fn two_frames_in_one_buffer_are_read_one_by_one() {
    let mut bytes = buffer(b":42\r\n:7\r\n");
    let mut codec = RespCodec;
    assert_eq!(codec.decode(&mut bytes).unwrap(), Some(RespValue::Integer(42)));
    assert_eq!(bytes.to_vec(), b":7\r\n".to_vec());
    assert_eq!(codec.decode(&mut bytes).unwrap(), Some(RespValue::Integer(7)));
    assert_eq!(bytes.len(), 0);
    assert_eq!(codec.decode(&mut bytes).unwrap(), None);
}

#[test]
fn an_error_frame_is_a_value_until_a_type_is_asked_for() {
    let mut bytes = buffer(b"-ERR wrong type\r\n");
    let mut codec = RespCodec;
    let value = codec.decode(&mut bytes).unwrap().unwrap();
    assert_eq!(value, RespValue::Error("ERR wrong type".to_string()));
    assert_eq!(
        String::from_resp(value),
        Err(Error::Remote("ERR wrong type".to_string()))
    );
}

#[test]
fn an_unknown_tag_is_an_error_and_never_incomplete() {
    let mut codec = RespCodec;
    let mut bytes = buffer(b"#");
    assert_eq!(
        codec.decode(&mut bytes),
        Err(Error::RESP("Unexpected byte: 35".to_string(), None))
    );
    assert_eq!(bytes.to_vec(), b"#".to_vec());

    let mut bytes = buffer(b"#5\r\nhello\r\n");
    assert_eq!(
        codec.decode(&mut bytes),
        Err(Error::RESP("Unexpected byte: 35".to_string(), None))
    );

    let mut bytes = buffer(b"\xffabc");
    assert_eq!(
        codec.decode(&mut bytes),
        Err(Error::RESP("Unexpected byte: 255".to_string(), None))
    );

    let mut bytes = buffer(b"\x00");
    assert_eq!(
        codec.decode(&mut bytes),
        Err(Error::RESP("Unexpected byte: 0".to_string(), None))
    );
}

#[test]
fn an_unknown_tag_inside_an_array_is_an_error() {
    let mut codec = RespCodec;
    let mut bytes = buffer(b"*2\r\n:1\r\n!");
    assert_eq!(
        codec.decode(&mut bytes),
        Err(Error::RESP("Unexpected byte: 33".to_string(), None))
    );
    assert_eq!(bytes.to_vec(), b"*2\r\n:1\r\n!".to_vec());
}

#[test]
fn a_byte_that_is_no_digit_in_a_number_is_an_error() {
    let mut codec = RespCodec;
    for (input, byte) in [
        (&b":4x\r\n"[..], 120u8),
        (&b"$-1\r\n"[..], 45),
        (&b"*1\n"[..], 10),
        (&b":12\rX"[..], 88),
        (&b":12\r\r\n"[..], 13),
        (&b":12\r5"[..], 53),
        (&b"$ 1\r\n"[..], 32),
    ] {
        let mut bytes = buffer(input);
        assert_eq!(
            codec.decode(&mut bytes),
            Err(Error::RESP(
                format!("Unexpected byte in size_string: {}", byte),
                None
            ))
        );
        assert_eq!(bytes.to_vec(), input.to_vec());
    }
}

#[test]
fn a_number_without_digits_or_too_large_is_an_error() {
    let mut codec = RespCodec;
    let too_large = format!(":{}0\r\n", usize::MAX);
    let just_too_large = ":18446744073709551616\r\n";
    for input in [":\r\n", "$\r\nabc\r\n", "*\r\n", &too_large, just_too_large] {
        if usize::MAX as u128 != u64::MAX as u128 && input == just_too_large {
            continue;
        }
        let mut bytes = buffer(input.as_bytes());
        assert_eq!(
            codec.decode(&mut bytes),
            Err(Error::RESP("Not an integer".to_string(), None))
        );
        assert_eq!(bytes.to_vec(), input.as_bytes().to_vec());
    }
}

#[test]
fn a_number_may_have_leading_zeros() {
    let mut codec = RespCodec;
    let mut bytes = buffer(b":007\r\n");
    assert_eq!(codec.decode(&mut bytes).unwrap(), Some(RespValue::Integer(7)));
    let mut bytes = buffer(b":000000000000000000000000000000000000000018446744073709551615\r\n");
    if usize::MAX as u128 == u64::MAX as u128 {
        assert_eq!(
            codec.decode(&mut bytes).unwrap(),
            Some(RespValue::Integer(usize::MAX))
        );
    }
    let mut bytes = buffer(b"$03\r\nabc\r\n");
    assert_eq!(
        codec.decode(&mut bytes).unwrap(),
        Some(RespValue::BulkString(b"abc".to_vec()))
    );
}

#[test]
fn a_bulk_string_longer_than_the_buffer_is_incomplete() {
    let mut codec = RespCodec;
    let input = format!("${}\r\nabc\r\n", usize::MAX);
    let mut bytes = buffer(input.as_bytes());
    assert_eq!(codec.decode(&mut bytes).unwrap(), None);
    assert_eq!(bytes.to_vec(), input.as_bytes().to_vec());

    let mut bytes = buffer(b"$3\r\nabc\r");
    assert_eq!(codec.decode(&mut bytes).unwrap(), None);
    let mut bytes = buffer(b"$0\r\n\r");
    assert_eq!(codec.decode(&mut bytes).unwrap(), None);
}

#[test]
fn the_two_bytes_after_a_bulk_string_are_skipped_unseen() {
    let mut codec = RespCodec;
    let mut bytes = buffer(b"$3\r\nabcXY:1\r\n");
    assert_eq!(
        codec.decode(&mut bytes).unwrap(),
        Some(RespValue::BulkString(b"abc".to_vec()))
    );
    assert_eq!(bytes.to_vec(), b":1\r\n".to_vec());
}

#[test]
fn a_bulk_string_may_hold_any_byte() {
    let mut payload: Vec<u8> = (0..=255).collect();
    payload.extend_from_slice(b"\r\n\r\n");
    let value = RespValue::BulkString(payload.clone());
    let mut bytes = BytesMut::new();
    let mut codec = RespCodec;
    codec.encode(value.clone(), &mut bytes).unwrap();
    let mut expected = b"$260\r\n".to_vec();
    expected.extend_from_slice(&payload);
    expected.extend_from_slice(b"\r\n");
    assert_eq!(bytes.to_vec(), expected);
    assert_eq!(codec.decode(&mut bytes).unwrap(), Some(value));
}

#[test]
fn a_text_ends_at_the_first_line_end() {
    let mut codec = RespCodec;
    let mut bytes = buffer(b"+a\rb\nc\r\n+rest\r\n");
    assert_eq!(
        codec.decode(&mut bytes).unwrap(),
        Some(RespValue::SimpleString("a\rb\nc".to_string()))
    );
    assert_eq!(bytes.to_vec(), b"+rest\r\n".to_vec());

    let mut bytes = buffer(b"+a\r\r\n");
    assert_eq!(
        codec.decode(&mut bytes).unwrap(),
        Some(RespValue::SimpleString("a\r".to_string()))
    );
    assert_eq!(bytes.len(), 0);

    let mut bytes = buffer(b"-\r\n");
    assert_eq!(
        codec.decode(&mut bytes).unwrap(),
        Some(RespValue::Error(String::new()))
    );

    let mut bytes = buffer(b"+a\r\nb\r\n");
    assert_eq!(
        codec.decode(&mut bytes).unwrap(),
        Some(RespValue::SimpleString("a".to_string()))
    );
    assert_eq!(bytes.to_vec(), b"b\r\n".to_vec());
}

#[test]
fn a_text_that_is_no_utf8_is_read_lossily() {
    let mut codec = RespCodec;
    let mut bytes = buffer(b"+a\xffb\r\n");
    assert_eq!(
        codec.decode(&mut bytes).unwrap(),
        Some(RespValue::SimpleString("a\u{FFFD}b".to_string()))
    );
    let mut bytes = buffer(b"-\xc3\r\n");
    assert_eq!(
        codec.decode(&mut bytes).unwrap(),
        Some(RespValue::Error("\u{FFFD}".to_string()))
    );
    let mut bytes = buffer(b"+caf\xc3\xa9\r\n");
    assert_eq!(
        codec.decode(&mut bytes).unwrap(),
        Some(RespValue::SimpleString("caf\u{e9}".to_string()))
    );
}

#[test]
fn an_array_waits_for_all_its_items() {
    let mut codec = RespCodec;
    let mut bytes = buffer(b"*3\r\n:1\r\n:2\r\n");
    assert_eq!(codec.decode(&mut bytes).unwrap(), None);
    assert_eq!(bytes.to_vec(), b"*3\r\n:1\r\n:2\r\n".to_vec());
    bytes.extend_from_slice(b"*1\r\n$2\r\nhi\r\n");
    assert_eq!(
        codec.decode(&mut bytes).unwrap(),
        Some(RespValue::Array(vec![
            RespValue::Integer(1),
            RespValue::Integer(2),
            RespValue::Array(vec![RespValue::BulkString(b"hi".to_vec())]),
        ]))
    );
    assert_eq!(bytes.len(), 0);
}

#[test]
fn an_array_with_a_count_beyond_the_buffer_is_incomplete() {
    let mut codec = RespCodec;
    let input = format!("*{}\r\n:1\r\n", usize::MAX);
    let mut bytes = buffer(input.as_bytes());
    assert_eq!(codec.decode(&mut bytes).unwrap(), None);
    assert_eq!(bytes.to_vec(), input.as_bytes().to_vec());
}
