use iox2redis_json::client::{
    parse_i64_text, reply_to_value, response_to_redis_value, ClientError, DirectClient, RedisValue, RpcTransport,
};
use iox2redis_json::codec::{encode_response, ResponseFrame, WireValue};
use iox2redis_json::JsonStore;

struct Loopback {
    store: JsonStore,
}

impl RpcTransport for Loopback {
    fn request(&mut self, payload: &[u8]) -> Result<Vec<u8>, ClientError> {
        self.store.handle_payload(payload).map_err(|e| ClientError::Transport(e.text()))
    }
}

struct Broken;

impl RpcTransport for Broken {
    fn request(&mut self, _payload: &[u8]) -> Result<Vec<u8>, ClientError> {
        Err(ClientError::Transport("down".to_owned()))
    }
}

fn client() -> DirectClient<Loopback> {
    DirectClient::new(Loopback { store: JsonStore::new() })
}

#[test]
fn responses_become_redis_values() {
    assert_eq!(response_to_redis_value(ResponseFrame::simple("OK")).unwrap(), RedisValue::Bytes(b"OK".to_vec()));
    assert_eq!(response_to_redis_value(ResponseFrame::nil()).unwrap(), RedisValue::Nil);
    assert_eq!(response_to_redis_value(ResponseFrame::pong()).unwrap(), RedisValue::Bytes(b"PONG".to_vec()));
    assert_eq!(response_to_redis_value(ResponseFrame::integer(-12)).unwrap(), RedisValue::Integer(-12));
    assert_eq!(
        response_to_redis_value(ResponseFrame::bulk(WireValue::Json("[1]".to_owned()))).unwrap(),
        RedisValue::Bytes(b"[1]".to_vec())
    );
    assert_eq!(
        response_to_redis_value(ResponseFrame::array(vec![Some("a".into()), None])).unwrap(),
        RedisValue::Array(vec![RedisValue::Bytes(b"a".to_vec()), RedisValue::Nil])
    );
    match response_to_redis_value(ResponseFrame::error("ERR nope")) {
        Err(ClientError::Server(m)) => assert_eq!(m, "ERR nope"),
        _ => panic!("an error response was not reported"),
    }
}

#[test]
fn integers_parse_like_str_parse() {
    assert_eq!(parse_i64_text("42"), Some(42));
    assert_eq!(parse_i64_text("+7"), Some(7));
    assert_eq!(parse_i64_text("-9223372036854775808"), Some(i64::MIN));
    assert_eq!(parse_i64_text("9223372036854775807"), Some(i64::MAX));
    assert_eq!(parse_i64_text("9223372036854775808"), None);
    assert_eq!(parse_i64_text("-"), None);
    assert_eq!(parse_i64_text(""), None);
    assert_eq!(parse_i64_text("1 "), None);
    assert_eq!(parse_i64_text("0x10"), None);
    for t in ["0", "-0", "123456789", "-55", "+0", "99999999999999999999", "1e3"] {
        assert_eq!(parse_i64_text(t), t.parse::<i64>().ok());
    }
}

#[test]
fn values_print_like_redis_cli() {
    assert_eq!(RedisValue::Nil.to_text(), "(nil)");
    assert_eq!(RedisValue::Integer(-3).to_text(), "-3");
    assert_eq!(RedisValue::Bytes(b"hi".to_vec()).to_text(), "hi");
    let v = RedisValue::Array(vec![RedisValue::Bytes(b"a".to_vec()), RedisValue::Nil]);
    assert_eq!(v.to_text(), "1) a\n2) (nil)");
    assert_eq!(v.debug_string(), format!("{:?}", v));
    assert_eq!(RedisValue::Integer(5).debug_string(), "Integer(5)");
    assert_eq!(v.as_bytes(), None);
    assert_eq!(RedisValue::Bytes(vec![1, 2]).as_bytes(), Some(&[1u8, 2][..]));
    assert_eq!(RedisValue::Bytes(vec![3]).into_bytes(), Some(vec![3]));
}

#[test]
fn direct_client_talks_to_a_store() {
    let mut c = client();
    assert!(c.ping().unwrap());
    assert!(c.set_bytes("k".into(), b"v".to_vec()).unwrap());
    assert_eq!(c.get_bytes("k".into()).unwrap(), Some(b"v".to_vec()));
    assert_eq!(c.get_bytes("missing".into()).unwrap(), None);
    assert_eq!(c.keys("*".into()).unwrap(), vec![b"k".to_vec()]);
    let dump = c.dump("k".into()).unwrap().unwrap();
    assert!(c.load("copy".into(), dump.clone(), true, false).unwrap());
    assert!(!c.load("copy".into(), dump, true, false).unwrap());
    assert_eq!(c.get_bytes("copy".into()).unwrap(), Some(b"v".to_vec()));
    assert_eq!(c.dump("missing".into()).unwrap(), None);
}

#[test]
fn direct_client_reports_errors() {
    let mut c = client();
    match c.execute(vec!["NOPE".into()]) {
        Err(ClientError::Server(m)) => assert_eq!(m, "ERR unsupported command NOPE"),
        _ => panic!("server error not reported"),
    }
    match c.get_bytes("".into()) {
        Ok(None) => {}
        _ => panic!("empty key"),
    }
    c.execute(vec!["SET".into(), "n".into(), "1".into()]).unwrap();
    match c.execute(vec![]) {
        Err(e) => assert_eq!(e.text(), "codec error: MissingCommand"),
        Ok(_) => panic!("empty command accepted"),
    }
    let mut b = DirectClient::new(Broken);
    match b.ping() {
        Err(e) => assert_eq!(e.text(), "transport error: down"),
        Ok(_) => panic!("transport failure hidden"),
    }
}

#[test]
fn unexpected_replies_are_named() {
    let reply = encode_response(&ResponseFrame::integer(3)).unwrap();
    let v = reply_to_value(Ok(reply)).unwrap();
    assert_eq!(v, RedisValue::Integer(3));
    match reply_to_value(Ok(b"junk".to_vec())) {
        Err(ClientError::Codec(_)) => {}
        _ => panic!("junk decoded"),
    }
    let mut c = client();
    c.execute(vec!["SET".into(), "k".into(), "v".into()]).unwrap();
    match c.keys("k".into()) {
        Ok(keys) => assert_eq!(keys, vec![b"k".to_vec()]),
        Err(_) => panic!("keys failed"),
    }
}

#[test]
fn json_documents_through_the_client() {
    let mut c = client();
    assert!(c.set_json("doc".into(), "{ \"b\": 2, \"a\": [1, 2] }").unwrap());
    assert_eq!(c.get_json("doc".into()).unwrap(), Some("{\"a\":[1,2],\"b\":2}".to_owned()));
    assert_eq!(c.get_json("missing".into()).unwrap(), None);
    match c.set_json("doc".into(), "{") {
        Err(e) => assert_eq!(e.text(), "json error: EOF while parsing an object at line 1 column 1"),
        Ok(_) => panic!("invalid JSON was sent"),
    }
    c.execute(vec!["SET".into(), "plain".into(), "not json".into()]).unwrap();
    assert!(matches!(c.get_json("plain".into()), Ok(Some(_)) | Err(ClientError::Json(_))));
}

#[test]
fn values_clone_item_by_item() {
    let v = RedisValue::Array(vec![RedisValue::Bytes(b"a".to_vec()), RedisValue::Integer(2), RedisValue::Nil]);
    assert_eq!(v.clone(), v);
}
