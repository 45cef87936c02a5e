use iox2redis_json::transport::{decode_hex, encode_hex, service_name_from_host};

#[test]
fn hex_round_trips() {
    let bytes: Vec<u8> = (0u8..=255).collect();
    let text = encode_hex(&bytes);
    assert_eq!(&text[..6], "000102");
    assert_eq!(decode_hex(&text).unwrap(), bytes);
    assert_eq!(encode_hex(&[0xab, 0x01]), "ab01");
    assert_eq!(decode_hex("AB01").unwrap(), vec![0xab, 0x01]);
}

#[test]
fn hex_errors() {
    assert_eq!(decode_hex("abc"), Err("hex input must have an even length".to_owned()));
    assert_eq!(decode_hex("zz"), Err("invalid hex digit: z".to_owned()));
}

#[test]
fn service_names_lose_scheme_and_slashes() {
    assert_eq!(service_name_from_host("iox2:///redis/json/"), "redis/json");
    assert_eq!(service_name_from_host("/a/b"), "a/b");
    assert_eq!(service_name_from_host("plain"), "plain");
    assert_eq!(service_name_from_host("///"), "");
}
