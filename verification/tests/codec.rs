use iox2redis_json::codec::{
    decode_command, decode_response, encode_command, encode_response, CodecError, ResponseFrame, ResponseKind,
    WireValue,
};

#[test]
fn command_round_trip_with_bytes() {
    let payload = encode_command(vec![
        WireValue::from("SET"),
        WireValue::from("k"),
        WireValue::from(b"\0bin".as_slice()),
    ])
    .unwrap();
    let frame = decode_command(&payload).unwrap();
    assert_eq!(frame.command, "SET");
    assert_eq!(
        frame.args,
        vec![WireValue::from("k"), WireValue::from(b"\0bin".as_slice())]
    );
}

#[test]
fn bulk_response_round_trip() {
    let payload =
        encode_response(&ResponseFrame::bulk(WireValue::from(b"value".as_slice()))).unwrap();
    let frame = decode_response(&payload).unwrap();
    assert_eq!(frame.value, Some(WireValue::from(b"value".as_slice())));
}

#[test]
fn array_response_round_trip() {
    let payload = encode_response(&ResponseFrame::array(vec![
        Some(WireValue::from("a")),
        None,
        Some(WireValue::from("c")),
    ]))
    .unwrap();
    let frame = decode_response(&payload).unwrap();
    assert_eq!(
        frame.array,
        vec![Some(WireValue::from("a")), None, Some(WireValue::from("c"))]
    );
}

#[test]
fn json_tag_matches_original_python_wire_format() {
    let payload = encode_command(vec![
        WireValue::from("JSON.SET"),
        WireValue::from("doc"),
        WireValue::from("$"),
        WireValue::Json(r#"{"a":1}"#.to_owned()),
    ])
    .unwrap();
    // The JSON argument uses tag 3 followed by a u32 length.
    assert!(payload
        .windows(6)
        .any(|window| window == [3, 0, 0, 0, 7, b'{']));
    let frame = decode_command(&payload).unwrap();
    assert_eq!(frame.args[2], WireValue::Json(r#"{"a":1}"#.to_owned()));
}

#[test]
fn command_name_is_upper_cased_on_encode() {
    let payload = encode_command(vec![WireValue::from("get"), WireValue::from("k")]).unwrap();
    let frame = decode_command(&payload).unwrap();
    assert_eq!(frame.command, "GET");
    assert_eq!(frame.args, vec![WireValue::from("k")]);
}

#[test]
fn command_header_bytes_are_exact() {
    let payload = encode_command(vec![WireValue::from("PING")]).unwrap();
    assert_eq!(payload, vec![b'I', b'X', b'2', b'R', 1, 1, 0, 4, 0, 0, b'P', b'I', b'N', b'G']);
}

#[test]
fn empty_command_is_refused() {
    assert_eq!(encode_command(Vec::new()), Err(CodecError::MissingCommand));
}

#[test]
fn decode_errors_are_reported() {
    assert_eq!(decode_command(b"IX2"), Err(CodecError::Truncated));
    assert_eq!(decode_command(b"XXXX\x01\x01\x00\x00\x00\x00"), Err(CodecError::InvalidMagic));
    assert_eq!(decode_command(b"IX2R\x02\x01\x00\x00\x00\x00"), Err(CodecError::UnsupportedVersion(2)));
    assert_eq!(decode_command(b"IX2R\x01\x02\x00\x00\x00\x00"), Err(CodecError::UnexpectedFrameType(2)));
    assert_eq!(decode_command(b"IX2R\x01\x01\x00\x00\x00\x00"), Err(CodecError::MissingCommand));
    assert_eq!(
        decode_command(b"IX2R\x01\x01\x00\x01\x00\x01A\x09"),
        Err(CodecError::UnknownValueTag(9))
    );
    assert_eq!(
        decode_command(b"IX2R\x01\x01\x00\x01\x00\x00A\x00"),
        Err(CodecError::TrailingBytes)
    );
    assert_eq!(decode_response(b"IX2R\x01\x02\x63"), Err(CodecError::UnknownResponseKind(0x63)));
    assert!(matches!(decode_command(b"IX2R\x01\x01\x00\x01\x00\x00\xff"), Err(CodecError::Utf8(_))));
}

#[test]
fn codec_error_text_matches_debug_form() {
    assert_eq!(CodecError::Truncated.text(), "Truncated");
    assert_eq!(CodecError::UnsupportedVersion(7).text(), "UnsupportedVersion(7)");
    assert_eq!(CodecError::Utf8("bad".to_owned()).text(), "Utf8(\"bad\")");
}

#[test]
fn every_response_kind_round_trips() {
    let frames = vec![
        ResponseFrame::simple("OK"),
        ResponseFrame::nil(),
        ResponseFrame::error("ERR boom"),
        ResponseFrame::integer(-42),
        ResponseFrame::pong(),
        ResponseFrame::bulk(WireValue::Json("[1,2]".to_owned())),
    ];
    for frame in frames {
        let bytes = encode_response(&frame).unwrap();
        let back = decode_response(&bytes).unwrap();
        assert_eq!(back, frame);
    }
    let int = decode_response(&encode_response(&ResponseFrame::integer(7)).unwrap()).unwrap();
    assert_eq!(int.kind, ResponseKind::Integer);
    assert_eq!(int.value, Some(WireValue::Json("7".to_owned())));
}

#[test]
fn wire_values_convert_to_keys_and_bytes() {
    assert_eq!(WireValue::Null.as_lossy_key(), "");
    assert_eq!(WireValue::from(vec![104u8, 105]).as_lossy_key(), "hi");
    assert_eq!(WireValue::from(vec![0xffu8]).as_lossy_key(), "\u{fffd}");
    assert_eq!(WireValue::Null.to_bytes(), None);
    assert_eq!(WireValue::from("é").to_bytes(), Some(vec![0xc3, 0xa9]));
    assert_eq!(WireValue::from(5i64), WireValue::Json("5".to_owned()));
}

#[test]
fn conversions_build_the_matching_value() {
    assert_eq!(WireValue::from("s"), WireValue::Str("s".to_owned()));
    assert_eq!(WireValue::from("s".to_owned()), WireValue::Str("s".to_owned()));
    assert_eq!(WireValue::from(b"b".as_slice()), WireValue::Bytes(vec![b'b']));
    assert_eq!(WireValue::from(vec![1u8]), WireValue::Bytes(vec![1]));
    assert_eq!(WireValue::from(-7i64), WireValue::Json("-7".to_owned()));
    assert_eq!(WireValue::from(12i32), WireValue::Json("12".to_owned()));
}
