use resp_codec::{to_resp_array, Error, FromResp, RespValue, ToResp, ToRespInteger, ToRespString};

fn boom() -> RespValue {
    RespValue::Error("boom".to_string())
}

#[test]
fn to_result_turns_an_error_value_into_a_remote_failure() {
    assert_eq!(boom().to_result(), Err(Error::Remote("boom".to_string())));
}

#[test]
fn to_result_passes_every_other_value_through() {
    for value in [
        RespValue::Array(vec![boom()]),
        RespValue::BulkString(b"x".to_vec()),
        RespValue::Integer(3),
        RespValue::SimpleString("OK".to_string()),
    ] {
        assert_eq!(value.clone().to_result(), Ok(value));
    }
}

#[test]
fn an_error_value_is_a_remote_failure_whatever_type_is_asked_for() {
    let remote = Error::Remote("boom".to_string());
    assert_eq!(RespValue::from_resp(boom()), Err(remote.clone()));
    assert_eq!(String::from_resp(boom()), Err(remote.clone()));
    assert_eq!(usize::from_resp(boom()), Err(remote.clone()));
    assert_eq!(<()>::from_resp(boom()), Err(remote));
}

#[test]
fn ok_is_an_acknowledgement_and_pong_is_not() {
    assert_eq!(
        <()>::from_resp(RespValue::SimpleString("OK".to_string())),
        Ok(())
    );
    assert_eq!(
        <()>::from_resp(RespValue::SimpleString("PONG".to_string())),
        Err(Error::RESP(
            "Unexpected value within SimpleString: PONG".to_string(),
            Some(RespValue::SimpleString("PONG".to_string()))
        ))
    );
    assert_eq!(
        <()>::from_resp(RespValue::SimpleString("ok".to_string())),
        Err(Error::RESP(
            "Unexpected value within SimpleString: ok".to_string(),
            Some(RespValue::SimpleString("ok".to_string()))
        ))
    );
    assert_eq!(
        <()>::from_resp(RespValue::SimpleString(String::new())),
        Err(Error::RESP(
            "Unexpected value within SimpleString: ".to_string(),
            Some(RespValue::SimpleString(String::new()))
        ))
    );
}

#[test]
fn no_other_shape_is_an_acknowledgement() {
    for value in [
        RespValue::Array(Vec::new()),
        RespValue::BulkString(b"OK".to_vec()),
        RespValue::Integer(1),
    ] {
        assert_eq!(
            <()>::from_resp(value.clone()),
            Err(Error::RESP("Unexpected value".to_string(), Some(value)))
        );
    }
}

#[test]
fn the_value_type_is_taken_out_unchanged() {
    let value = RespValue::Array(vec![RespValue::Integer(1), RespValue::BulkString(b"a".to_vec())]);
    assert_eq!(RespValue::from_resp(value.clone()), Ok(value.clone()));
    assert_eq!(RespValue::from_resp_int(value.clone()), Ok(value));
    assert_eq!(RespValue::from_resp_int(boom()), Ok(boom()));
}

#[test]
fn text_out_of_a_bulk_string_never_fails() {
    assert_eq!(
        String::from_resp(RespValue::BulkString(b"hello".to_vec())),
        Ok("hello".to_string())
    );
    assert_eq!(
        String::from_resp(RespValue::BulkString(b"caf\xc3\xa9".to_vec())),
        Ok("caf\u{e9}".to_string())
    );
    assert_eq!(
        String::from_resp(RespValue::BulkString(b"a\xff\xfeb".to_vec())),
        Ok("a\u{FFFD}\u{FFFD}b".to_string())
    );
    assert_eq!(
        String::from_resp(RespValue::BulkString(Vec::new())),
        Ok(String::new())
    );
}

#[test]
fn text_out_of_an_integer_is_its_decimal_form() {
    assert_eq!(String::from_resp(RespValue::Integer(0)), Ok("0".to_string()));
    assert_eq!(String::from_resp(RespValue::Integer(9)), Ok("9".to_string()));
    assert_eq!(String::from_resp(RespValue::Integer(10)), Ok("10".to_string()));
    assert_eq!(
        String::from_resp(RespValue::Integer(1234567890)),
        Ok("1234567890".to_string())
    );
    assert_eq!(
        String::from_resp(RespValue::Integer(usize::MAX)),
        Ok(usize::MAX.to_string())
    );
}

#[test]
fn text_out_of_a_simple_string_is_that_text() {
    assert_eq!(
        String::from_resp(RespValue::SimpleString("PONG".to_string())),
        Ok("PONG".to_string())
    );
}

#[test]
fn an_array_is_no_text() {
    let value = RespValue::Array(vec![RespValue::Integer(1)]);
    assert_eq!(
        String::from_resp(value.clone()),
        Err(Error::RESP(
            "Cannot convert into a string".to_string(),
            Some(value)
        ))
    );
}

#[test]
fn the_rule_for_text_alone_does_not_collapse_an_error_value() {
    assert_eq!(
        String::from_resp_int(boom()),
        Err(Error::RESP(
            "Cannot convert into a string".to_string(),
            Some(boom())
        ))
    );
}

#[test]
fn the_rules_for_numbers_and_acknowledgements_collapse_an_error_value_themselves() {
    assert_eq!(usize::from_resp_int(boom()), Err(Error::Remote("boom".to_string())));
    assert_eq!(<()>::from_resp_int(boom()), Err(Error::Remote("boom".to_string())));
}

#[test]
fn only_an_integer_is_a_number() {
    assert_eq!(usize::from_resp(RespValue::Integer(0)), Ok(0));
    assert_eq!(usize::from_resp(RespValue::Integer(usize::MAX)), Ok(usize::MAX));
    for value in [
        RespValue::Array(Vec::new()),
        RespValue::BulkString(b"12".to_vec()),
        RespValue::SimpleString("12".to_string()),
    ] {
        assert_eq!(
            usize::from_resp(value.clone()),
            Err(Error::RESP(
                "Cannot be converted into a usize".to_string(),
                Some(value)
            ))
        );
    }
}

#[test]
fn texts_and_bytes_become_bulk_strings() {
    let expected = RespValue::BulkString(b"caf\xc3\xa9".to_vec());
    assert_eq!("caf\u{e9}".to_string().to_resp_string(), expected);
    assert_eq!("caf\u{e9}".to_resp_string(), expected);
    assert_eq!((&b"caf\xc3\xa9"[..]).to_resp_string(), expected);
    assert_eq!(b"caf\xc3\xa9".to_vec().to_resp_string(), expected);
    assert_eq!(
        (&b"\xff\r\n\x00"[..]).to_resp_string(),
        RespValue::BulkString(vec![255, 13, 10, 0])
    );
}

#[test]
fn what_becomes_a_bulk_string_becomes_that_value() {
    let expected = RespValue::BulkString(b"abc".to_vec());
    assert_eq!("abc".to_string().to_resp(), expected);
    assert_eq!("abc".to_resp(), expected);
    assert_eq!((&b"abc"[..]).to_resp(), expected);
    assert_eq!(b"abc".to_vec().to_resp(), expected);
    let from_str: RespValue = "abc".into();
    assert_eq!(from_str, expected);
    assert_eq!(RespValue::from("abc".to_string()), expected);
    assert_eq!(RespValue::from(b"abc".to_vec()), expected);
}

#[test]
fn a_number_becomes_an_integer() {
    assert_eq!(0usize.to_resp_integer(), RespValue::Integer(0));
    assert_eq!(42usize.to_resp_integer(), RespValue::Integer(42));
    assert_eq!(usize::MAX.to_resp_integer(), RespValue::Integer(usize::MAX));
}

#[test]
fn an_array_keeps_the_order_of_its_items() {
    assert_eq!(
        to_resp_array(&["SET", "key", "value"]),
        RespValue::Array(vec![
            RespValue::BulkString(b"SET".to_vec()),
            RespValue::BulkString(b"key".to_vec()),
            RespValue::BulkString(b"value".to_vec()),
        ])
    );
    let none: [&str; 0] = [];
    assert_eq!(to_resp_array(&none), RespValue::Array(Vec::new()));
    assert_eq!(
        to_resp_array(&[vec![1u8, 2], vec![], vec![3]]),
        RespValue::Array(vec![
            RespValue::BulkString(vec![1, 2]),
            RespValue::BulkString(vec![]),
            RespValue::BulkString(vec![3]),
        ])
    );
}

#[test]
fn a_copy_of_a_value_is_equal_to_it() {
    let value = RespValue::Array(vec![
        RespValue::Integer(1),
        RespValue::Array(vec![RespValue::SimpleString("a".to_string()), boom()]),
        RespValue::BulkString(b"\x00\xff".to_vec()),
    ]);
    assert_eq!(value.clone(), value);
}
