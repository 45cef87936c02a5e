use iox2redis_json::codec::{decode_response, encode_command, ResponseFrame, ResponseKind, WireValue};
use iox2redis_json::server::{ServerConfig, SERVER_INFO_KEY};
use iox2redis_json::size::format_bytes as format_bytes_text;
use iox2redis_json::store::ConstJsonStore;
use iox2redis_json::{Iox2JsonServer, JsonStore, StoreError};
use std::time::Duration;

fn at(server: &mut Iox2JsonServer, parts: Vec<&str>, now: u64) -> ResponseFrame {
    let values: Vec<WireValue> = parts.into_iter().map(WireValue::from).collect();
    let request = encode_command(values).unwrap();
    decode_response(&server.handle_payload_at(&request, now).unwrap()).unwrap()
}

fn server() -> Iox2JsonServer {
    Iox2JsonServer::new(ServerConfig::new("iox2:///redis/json/")).unwrap()
}

#[test]
fn config_defaults_and_service_name() {
    let c = ServerConfig::new("iox2:///redis/json/");
    assert_eq!(c.service_name, "redis/json");
    assert_eq!(c.max_payload_size, 65536);
    assert_eq!(c.poll_ns, None);
    assert_eq!(c.poll_ms, None);
    assert_eq!(c.effective_poll_ns(), 100_000);
    assert_eq!(c.poll_duration(), Duration::from_nanos(100_000));
}

#[test]
fn effective_poll_prefers_nanoseconds_and_saturates() {
    let mut c = ServerConfig::new("svc");
    c.poll_ms = Some(5);
    assert_eq!(c.effective_poll_ns(), 5_000_000);
    c.poll_ns = Some(7);
    assert_eq!(c.effective_poll_ns(), 7);
    c.poll_ns = None;
    c.poll_ms = Some(u64::MAX / 1000);
    assert_eq!(c.effective_poll_ns(), u64::MAX);
}

#[test]
fn validate_refuses_empty_names_and_zero_payloads() {
    let mut c = ServerConfig::new("svc");
    assert!(c.validate().is_ok());
    c.service_name = "///".to_owned();
    match c.validate() {
        Err(StoreError::InvalidConfig(m)) => assert_eq!(m, "service name must not be empty"),
        other => panic!("unexpected {other:?}"),
    }
    let mut c = ServerConfig::new("svc");
    c.max_payload_size = 0;
    match c.validate() {
        Err(e) => assert_eq!(e.text(), "invalid configuration: max_payload_size must be greater than zero"),
        Ok(()) => panic!("accepted a zero payload size"),
    }
    assert!(Iox2JsonServer::new(c).is_err());
}

#[test]
fn info_describes_the_configuration() {
    let mut c = ServerConfig::new("/redis/json/");
    let info = c.info();
    assert_eq!(info.name, "iox2redis-json");
    assert_eq!(info.service_path, "/redis/json/");
    assert_eq!(info.max_payload_size_text, "64 KiB");
    assert_eq!(info.poll_text, "100000 ns (default)");
    assert_eq!(info.ready_message(), "IOX2REDIS_READY /redis/json/");
    assert_eq!(
        info.to_json_text(),
        "{\"const_key_prefix\":\"const:\",\"max_payload_size\":65536,\"max_payload_size_text\":\"64 KiB\",\
         \"name\":\"iox2redis-json\",\"poll_is_default\":true,\"poll_text\":\"100000 ns (default)\",\
         \"poll_unit\":\"ns\",\"poll_value\":100000,\"server_info_key\":\"const:server_info\",\
         \"service_path\":\"/redis/json/\"}"
    );
    c.poll_ms = Some(3);
    c.max_payload_size = 1536;
    let info = c.info();
    assert_eq!(info.poll_text, "3 ms");
    assert!(!info.poll_is_default);
    assert_eq!(info.max_payload_size_text, "1.5 KiB");
}

#[test]
fn byte_counts_in_binary_units() {
    assert_eq!(format_bytes_text(0), "0 B");
    assert_eq!(format_bytes_text(1000), "1000 B");
    assert_eq!(format_bytes_text(1024), "1 KiB");
    assert_eq!(format_bytes_text(1536), "1.5 KiB");
    assert_eq!(format_bytes_text(1048576), "1 MiB");
    assert_eq!(format_bytes_text(3 * 1073741824 / 4 * 2), "1.5 GiB");
    assert_eq!(format_bytes_text(1099511627776), "1 TiB");
    assert_eq!(format_bytes_text(1125899906842624), "1024 TiB");
}

#[test]
fn server_info_is_published_as_compact_json() {
    let mut s = server();
    let expected = s.info.to_json_text();
    let r = at(&mut s, vec!["JSON.GET", SERVER_INFO_KEY, "$"], 0);
    assert_eq!(r, ResponseFrame::bulk(WireValue::Str(expected)));
}

#[test]
fn constant_keys_route_to_the_write_once_store() {
    let mut s = server();
    assert_eq!(at(&mut s, vec!["SET", "const:a", "1"], 0), ResponseFrame::simple("OK"));
    assert_eq!(
        at(&mut s, vec!["SET", "const:a", "2"], 0).message.unwrap(),
        "ERR constant key \"const:a\" is already set"
    );
    assert_eq!(
        at(&mut s, vec!["SET", "const:b", "1", "EX", "5"], 0).message.unwrap(),
        "ERR expiration is not allowed for constant keys"
    );
    assert_eq!(at(&mut s, vec!["GET", "const:a"], 0), ResponseFrame::bulk("1".into()));
    assert_eq!(
        at(&mut s, vec!["DEL", "plain", "const:a"], 0).message.unwrap(),
        "ERR constant keys cannot be deleted"
    );
    assert_eq!(at(&mut s, vec!["GET", "const:a"], 1_000_000_000_000), ResponseFrame::bulk("1".into()));
}

#[test]
fn exists_mget_and_keys_span_both_stores() {
    let mut s = server();
    at(&mut s, vec!["SET", "plain", "p"], 0);
    at(&mut s, vec!["SET", "const:c", "c"], 0);
    assert_eq!(at(&mut s, vec!["EXISTS", "plain", "const:c", "const:none"], 0), ResponseFrame::integer(2));
    assert_eq!(
        at(&mut s, vec!["MGET", "const:c", "missing", "plain"], 0).array,
        vec![Some("c".into()), None, Some("p".into())]
    );
    let mut keys: Vec<String> = at(&mut s, vec!["KEYS", "*"], 0)
        .array
        .into_iter()
        .map(|v| v.unwrap().as_lossy_key())
        .collect();
    keys.sort();
    assert_eq!(keys, vec!["const:c", "const:server_info", "plain"]);
    assert_eq!(at(&mut s, vec!["DEL", "plain"], 0), ResponseFrame::integer(1));
}

#[test]
fn with_stores_reserves_the_server_info_key() {
    let mut consts = ConstJsonStore::new();
    consts.initialize_json(SERVER_INFO_KEY, "{}").unwrap();
    match Iox2JsonServer::with_stores(ServerConfig::new("svc"), JsonStore::new(), consts) {
        Err(StoreError::InvalidConfig(m)) => assert_eq!(m, "\"const:server_info\" is reserved by the server"),
        _ => panic!("the reserved key was accepted"),
    }
    let mut consts = ConstJsonStore::new();
    consts.initialize_json("const:seed", "[1, 2]").unwrap();
    let mut s = Iox2JsonServer::with_stores(ServerConfig::new("svc"), JsonStore::new(), consts).unwrap();
    assert_eq!(at(&mut s, vec!["JSON.GET", "const:seed"], 0), ResponseFrame::bulk(WireValue::Str("[1,2]".to_owned())));
}

#[test]
fn write_once_store_initialization_errors() {
    let mut consts = ConstJsonStore::new();
    match consts.initialize_json("plain", "1") {
        Err(e) => assert_eq!(e.text(), "invalid configuration: constant keys must start with \"const:\""),
        Ok(()) => panic!("accepted a plain key"),
    }
    consts.initialize_json("const:x", "1").unwrap();
    match consts.initialize_json("const:x", "2") {
        Err(StoreError::InvalidConfig(m)) => assert_eq!(m, "constant key is already set: const:x"),
        _ => panic!("accepted a second write"),
    }
    assert!(matches!(consts.initialize_json("const:y", "{"), Err(StoreError::Json(_))));
    assert!(consts.key_exists("const:x"));
    assert!(!consts.key_exists("const:y"));
    assert_eq!(consts.value_for_mget("const:x"), Some(WireValue::Str("1".to_owned())));
    assert_eq!(consts.matching_keys("const:*"), vec!["const:x".to_owned()]);
}

#[test]
fn write_once_store_answers_commands() {
    let mut consts = ConstJsonStore::new();
    let frame = |parts: Vec<&str>| {
        let values: Vec<WireValue> = parts.into_iter().map(WireValue::from).collect();
        iox2redis_json::decode_command(&encode_command(values).unwrap()).unwrap()
    };
    assert_eq!(
        consts.handle(frame(vec!["SET", "plain", "1"])).message.unwrap(),
        "ERR constant key must start with \"const:\""
    );
    assert_eq!(consts.handle(frame(vec!["SET", "const:k", "1"])).kind, ResponseKind::Simple);
    assert_eq!(
        consts.handle(frame(vec!["DEL", "const:k"])).message.unwrap(),
        "ERR constant keys cannot be deleted"
    );
    assert_eq!(consts.handle(frame(vec!["GET", "const:k"])), ResponseFrame::bulk("1".into()));
}

#[test]
fn store_key_helpers_read_the_clock() {
    let mut store = JsonStore::new();
    let request = encode_command(vec!["SET".into(), "k".into(), "v".into()]).unwrap();
    store.handle_payload(&request).unwrap();
    assert!(store.key_exists("k"));
    assert!(!store.key_exists("nope"));
    assert_eq!(store.value_for_mget("k"), Some(WireValue::Str("v".to_owned())));
    assert_eq!(store.matching_keys("?"), vec!["k".to_owned()]);
}
