use bytes::BytesMut;
use resp_codec::decimal::{
    decimal_bytes, decimal_len, decimal_string, parse_decimal, push_decimal, push_decimal_text,
};
use resp_codec::encode::{wire_len, write_value};
use resp_codec::RespValue;

fn numbers() -> Vec<usize> {
    vec![
        0,
        1,
        9,
        10,
        11,
        99,
        100,
        101,
        255,
        256,
        999,
        1000,
        12345,
        1234567890,
        usize::MAX / 10,
        usize::MAX - 1,
        usize::MAX,
    ]
}

#[test]
fn decimal_bytes_are_the_digits_of_the_number() {
    assert_eq!(decimal_bytes(0), b"0".to_vec());
    assert_eq!(decimal_bytes(7), b"7".to_vec());
    assert_eq!(decimal_bytes(10), b"10".to_vec());
    assert_eq!(decimal_bytes(4096), b"4096".to_vec());
    for n in numbers() {
        assert_eq!(decimal_bytes(n), n.to_string().into_bytes());
    }
}

#[test]
fn push_decimal_appends_the_digits() {
    let mut out = b"n=".to_vec();
    push_decimal(305, &mut out);
    push_decimal(0, &mut out);
    assert_eq!(out, b"n=3050".to_vec());
}

#[test]
fn decimal_len_counts_the_digits() {
    assert_eq!(decimal_len(0), 1);
    assert_eq!(decimal_len(9), 1);
    assert_eq!(decimal_len(10), 2);
    assert_eq!(decimal_len(99), 2);
    assert_eq!(decimal_len(100), 3);
    for n in numbers() {
        assert_eq!(decimal_len(n), n.to_string().len());
    }
}

#[test]
fn decimal_string_is_the_number_as_text() {
    assert_eq!(decimal_string(0), "0");
    assert_eq!(decimal_string(35), "35");
    assert_eq!(decimal_string(1234567890), "1234567890");
    for n in numbers() {
        assert_eq!(decimal_string(n), n.to_string());
    }
    let mut text = "byte ".to_string();
    push_decimal_text(255, &mut text);
    assert_eq!(text, "byte 255");
}

#[test]
fn parse_decimal_reads_what_was_written() {
    for n in numbers() {
        assert_eq!(parse_decimal(&decimal_bytes(n)), Some(n));
    }
    assert_eq!(parse_decimal(b"0"), Some(0));
    assert_eq!(parse_decimal(b"000"), Some(0));
    assert_eq!(parse_decimal(b"0123"), Some(123));
}

#[test]
fn parse_decimal_refuses_what_is_no_number_of_its_size() {
    assert_eq!(parse_decimal(b""), None);
    assert_eq!(parse_decimal(b"12a"), None);
    assert_eq!(parse_decimal(b"a12"), None);
    assert_eq!(parse_decimal(b"-1"), None);
    assert_eq!(parse_decimal(b"+1"), None);
    assert_eq!(parse_decimal(b" 1"), None);
    assert_eq!(parse_decimal(b"1.5"), None);
    assert_eq!(parse_decimal(b"/"), None);
    assert_eq!(parse_decimal(b":"), None);
    let mut above = usize::MAX.to_string().into_bytes();
    let last = above.len() - 1;
    above[last] += 1;
    assert_eq!(parse_decimal(&above), None);
    let mut longer = usize::MAX.to_string().into_bytes();
    longer.push(b'0');
    assert_eq!(parse_decimal(&longer), None);
}

#[test]
fn wire_len_is_the_length_of_what_is_written() {
    let values = vec![
        RespValue::Integer(0),
        RespValue::Integer(usize::MAX),
        RespValue::BulkString(Vec::new()),
        RespValue::BulkString(vec![0; 1000]),
        RespValue::SimpleString("caf\u{e9}".to_string()),
        RespValue::Error(String::new()),
        RespValue::Array(Vec::new()),
        RespValue::Array(vec![
            RespValue::Integer(10),
            RespValue::Array(vec![RespValue::BulkString(b"abc".to_vec()); 11]),
            RespValue::SimpleString("OK".to_string()),
        ]),
    ];
    for value in values {
        let mut buf = BytesMut::new();
        buf.extend_from_slice(b"before");
        write_value(&value, &mut buf);
        assert_eq!(wire_len(&value), Some(buf.len() - 6));
        assert_eq!(&buf[..6], b"before");
    }
    assert_eq!(wire_len(&RespValue::Integer(0)), Some(4));
    assert_eq!(wire_len(&RespValue::BulkString(b"THISISATEST".to_vec())), Some(18));
    assert_eq!(wire_len(&RespValue::Array(Vec::new())), Some(4));
    assert_eq!(wire_len(&RespValue::SimpleString("OK".to_string())), Some(5));
}
