use iox2redis_json::codec::{decode_response, encode_command, ResponseFrame, ResponseKind, WireValue};
use iox2redis_json::JsonStore;

const MS: u64 = 1_000_000;

fn at(store: &mut JsonStore, parts: Vec<&str>, now: u64) -> ResponseFrame {
    let values: Vec<WireValue> = parts.into_iter().map(WireValue::from).collect();
    let request = encode_command(values).unwrap();
    decode_response(&store.handle_payload_at(&request, now).unwrap()).unwrap()
}

fn message(r: &ResponseFrame) -> String {
    assert_eq!(r.kind, ResponseKind::Error);
    r.message.clone().unwrap()
}

#[test]
fn set_then_get_reads_back_the_value() {
    let mut s = JsonStore::new();
    assert_eq!(at(&mut s, vec!["SET", "k", "v"], 0), ResponseFrame::simple("OK"));
    assert_eq!(at(&mut s, vec!["GET", "k"], 5_000 * MS), ResponseFrame::bulk("v".into()));
}

#[test]
fn set_px_expires_when_its_time_has_passed() {
    let mut s = JsonStore::new();
    assert_eq!(at(&mut s, vec!["SET", "k", "v", "PX", "100"], 10), ResponseFrame::simple("OK"));
    assert_eq!(at(&mut s, vec!["GET", "k"], 10 + 100 * MS - 1), ResponseFrame::bulk("v".into()));
    assert_eq!(at(&mut s, vec!["GET", "k"], 10 + 100 * MS), ResponseFrame::nil());
}

#[test]
fn set_ex_takes_fractional_seconds() {
    let mut s = JsonStore::new();
    at(&mut s, vec!["set", "k", "v", "ex", "1.5"], 0);
    assert_eq!(at(&mut s, vec!["GET", "k"], 1_499 * MS), ResponseFrame::bulk("v".into()));
    assert_eq!(at(&mut s, vec!["GET", "k"], 1_500 * MS), ResponseFrame::nil());
}

#[test]
fn set_options_nx_xx_get() {
    let mut s = JsonStore::new();
    assert_eq!(at(&mut s, vec!["SET", "k", "1", "XX"], 0), ResponseFrame::nil());
    assert_eq!(at(&mut s, vec!["SET", "k", "1", "NX"], 0), ResponseFrame::simple("OK"));
    assert_eq!(at(&mut s, vec!["SET", "k", "2", "NX"], 0), ResponseFrame::nil());
    assert_eq!(at(&mut s, vec!["SET", "k", "3", "XX", "GET"], 0), ResponseFrame::bulk("1".into()));
    assert_eq!(at(&mut s, vec!["SET", "n", "3", "GET"], 0), ResponseFrame::nil());
    assert_eq!(at(&mut s, vec!["GET", "k"], 0), ResponseFrame::bulk("3".into()));
}

#[test]
fn set_errors() {
    let mut s = JsonStore::new();
    assert_eq!(message(&at(&mut s, vec!["SET", "k"], 0)), "ERR wrong number of arguments for SET");
    assert_eq!(
        message(&at(&mut s, vec!["SET", "k", "v", "NX", "XX"], 0)),
        "ERR NX and XX options are mutually exclusive"
    );
    assert_eq!(message(&at(&mut s, vec!["SET", "k", "v", "KEEPTTL"], 0)), "ERR unsupported SET option KEEPTTL");
    assert_eq!(message(&at(&mut s, vec!["SET", "k", "v", "EX"], 0)), "ERR unsupported SET option EX");
    assert_eq!(message(&at(&mut s, vec!["SET", "k", "v", "EX", "-1"], 0)), "ERR invalid expire time in SET");
    assert_eq!(message(&at(&mut s, vec!["SET", "k", "v", "PX", "soon"], 0)), "ERR invalid expire time in SET");
    assert_eq!(at(&mut s, vec!["EXISTS", "k"], 0), ResponseFrame::integer(0));
}

#[test]
fn ping_and_unknown_commands() {
    let mut s = JsonStore::new();
    assert_eq!(at(&mut s, vec!["PING"], 0), ResponseFrame::pong());
    assert_eq!(at(&mut s, vec!["PING", "hi"], 0), ResponseFrame::bulk("hi".into()));
    assert_eq!(message(&at(&mut s, vec!["FLUSHALL"], 0)), "ERR unsupported command FLUSHALL");
    assert_eq!(message(&at(&mut s, vec!["GET"], 0)), "ERR wrong number of arguments for GET");
    assert_eq!(message(&at(&mut s, vec!["KEYS"], 0)), "ERR wrong number of arguments for KEYS");
    assert_eq!(message(&at(&mut s, vec!["DUMP", "a", "b"], 0)), "ERR wrong number of arguments for DUMP");
}

#[test]
fn payload_that_does_not_decode_is_answered_with_codec_error() {
    let mut s = JsonStore::new();
    let bytes = s.handle_payload_at(b"nonsense", 0).unwrap();
    let r = decode_response(&bytes).unwrap();
    assert_eq!(message(&r), "ERR codec InvalidMagic");
}

#[test]
fn del_then_get_reads_nothing() {
    let mut s = JsonStore::new();
    at(&mut s, vec!["SET", "a", "1"], 0);
    assert_eq!(at(&mut s, vec!["DEL", "a", "a"], 0), ResponseFrame::integer(1));
    assert_eq!(at(&mut s, vec!["GET", "a"], 0), ResponseFrame::nil());
}

#[test]
fn expired_keys_do_not_count() {
    let mut s = JsonStore::new();
    at(&mut s, vec!["SET", "a", "1", "PX", "1"], 0);
    at(&mut s, vec!["SET", "b", "2"], 0);
    assert_eq!(at(&mut s, vec!["EXISTS", "a", "b"], MS), ResponseFrame::integer(1));
    assert_eq!(at(&mut s, vec!["DEL", "a", "b"], MS), ResponseFrame::integer(1));
    assert_eq!(
        at(&mut s, vec!["MGET", "a", "b"], MS),
        ResponseFrame::array(vec![None, None])
    );
}

#[test]
fn keys_match_globs() {
    let mut s = JsonStore::new();
    for k in ["user:1", "user:2", "user:10", "admin", "a*b", "x[y"] {
        at(&mut s, vec!["SET", k, "v"], 0);
    }
    let names = |r: ResponseFrame| {
        let mut v: Vec<String> = r.array.into_iter().map(|x| x.unwrap().as_lossy_key()).collect();
        v.sort();
        v
    };
    assert_eq!(names(at(&mut s, vec!["KEYS", "user:?"], 0)), vec!["user:1", "user:2"]);
    assert_eq!(names(at(&mut s, vec!["KEYS", "user:*"], 0)), vec!["user:1", "user:10", "user:2"]);
    assert_eq!(names(at(&mut s, vec!["KEYS", "user:[!1]"], 0)), vec!["user:2"]);
    assert_eq!(names(at(&mut s, vec!["KEYS", "user:[^2]*"], 0)), vec!["user:1", "user:10"]);
    assert_eq!(names(at(&mut s, vec!["KEYS", "a\\*b"], 0)), vec!["a*b"]);
    assert_eq!(names(at(&mut s, vec!["KEYS", "x[y"], 0)), vec!["x[y"]);
    assert_eq!(names(at(&mut s, vec!["KEYS", "nothing*"], 0)), Vec::<String>::new());
}

#[test]
fn keys_drop_expired_entries() {
    let mut s = JsonStore::new();
    at(&mut s, vec!["SET", "a", "1", "PX", "1"], 0);
    at(&mut s, vec!["SET", "b", "2"], 0);
    let r = at(&mut s, vec!["KEYS", "*"], MS);
    assert_eq!(r.array, vec![Some(WireValue::Str("b".to_owned()))]);
}

#[test]
fn json_set_then_get_reads_compact_json() {
    let mut s = JsonStore::new();
    assert_eq!(
        at(&mut s, vec!["JSON.SET", "doc", ".", "{ \"b\" : [1, 2],\n \"a\": null }"], 0),
        ResponseFrame::simple("OK")
    );
    assert_eq!(
        at(&mut s, vec!["JSON.GET", "doc"], 0),
        ResponseFrame::bulk(WireValue::Str("{\"a\":null,\"b\":[1,2]}".to_owned()))
    );
    assert_eq!(
        at(&mut s, vec!["GET", "doc"], 0),
        ResponseFrame::bulk(WireValue::Str("{\"a\":null,\"b\":[1,2]}".to_owned()))
    );
}

#[test]
fn json_commands_refuse_other_paths_and_bad_json() {
    let mut s = JsonStore::new();
    assert_eq!(
        message(&at(&mut s, vec!["JSON.SET", "doc", "$.a", "1"], 0)),
        "ERR only root path '$' is supported"
    );
    assert_eq!(message(&at(&mut s, vec!["JSON.GET", "doc", "$.a"], 0)), "ERR only root path '$' is supported");
    assert!(message(&at(&mut s, vec!["JSON.SET", "doc", "$", "{"], 0)).starts_with("ERR invalid JSON: "));
    assert_eq!(
        message(&at(&mut s, vec!["JSON.SET", "doc", "$", "1", "FORCE"], 0)),
        "ERR unsupported JSON.SET option FORCE"
    );
    assert_eq!(at(&mut s, vec!["JSON.SET", "doc", "$", "1", "XX"], 0), ResponseFrame::nil());
    assert_eq!(message(&at(&mut s, vec!["JSON.SET", "doc", "$"], 0)), "ERR wrong number of arguments for JSON.SET");
}

#[test]
fn json_get_on_plain_text_quotes_it() {
    let mut s = JsonStore::new();
    at(&mut s, vec!["SET", "t", "say \"hi\""], 0);
    at(&mut s, vec!["SET", "n", "[1, 2]"], 0);
    assert_eq!(
        at(&mut s, vec!["JSON.GET", "t"], 0),
        ResponseFrame::bulk(WireValue::Str("\"say \\\"hi\\\"\"".to_owned()))
    );
    assert_eq!(at(&mut s, vec!["JSON.GET", "n"], 0), ResponseFrame::bulk(WireValue::Str("[1,2]".to_owned())));
}

#[test]
fn dump_then_load_restores_value_and_remaining_ttl() {
    let mut s = JsonStore::new();
    at(&mut s, vec!["SET", "k", "v", "PX", "500"], 0);
    let dump = at(&mut s, vec!["DUMP", "k"], 200 * MS);
    let payload = dump.value.unwrap();
    let request = encode_command(vec!["LOAD".into(), "copy".into(), payload]).unwrap();
    let mut other = JsonStore::new();
    let r = decode_response(&other.handle_payload_at(&request, 1_000 * MS).unwrap()).unwrap();
    assert_eq!(r, ResponseFrame::simple("OK"));
    assert_eq!(at(&mut other, vec!["GET", "copy"], 1_299 * MS), ResponseFrame::bulk("v".into()));
    assert_eq!(at(&mut other, vec!["GET", "copy"], 1_300 * MS), ResponseFrame::nil());
}

#[test]
fn dump_of_json_keeps_the_json_kind() {
    let mut s = JsonStore::new();
    at(&mut s, vec!["JSON.SET", "doc", "$", "[1,2]"], 0);
    let payload = at(&mut s, vec!["DUMP", "doc"], 0).value.unwrap();
    let text = String::from_utf8(payload.to_bytes().unwrap()).unwrap();
    assert_eq!(
        text,
        "IX2D{\"v\":1,\"is_json\":true,\"ttl_ms\":null,\"value\":{\"type\":\"json\",\"data\":\"[1,2]\"}}"
    );
}

#[test]
fn load_flags_and_errors() {
    let mut s = JsonStore::new();
    at(&mut s, vec!["SET", "k", "v"], 0);
    let payload = at(&mut s, vec!["DUMP", "k"], 0).value.unwrap();
    let load = |s: &mut JsonStore, key: &str, flags: Vec<&str>| {
        let mut parts: Vec<WireValue> = vec!["LOAD".into(), key.into(), payload.clone()];
        parts.extend(flags.into_iter().map(WireValue::from));
        decode_response(&s.handle_payload_at(&encode_command(parts).unwrap(), 0).unwrap()).unwrap()
    };
    assert_eq!(load(&mut s, "k", vec!["NX"]), ResponseFrame::nil());
    assert_eq!(load(&mut s, "new", vec!["XX"]), ResponseFrame::nil());
    assert_eq!(load(&mut s, "new", vec!["NX"]), ResponseFrame::simple("OK"));
    assert_eq!(message(&load(&mut s, "new", vec!["NX", "XX"])), "ERR NX and XX options are mutually exclusive");
    assert_eq!(message(&load(&mut s, "new", vec!["REPLACE"])), "ERR unsupported LOAD option REPLACE");
    assert!(message(&at(&mut s, vec!["LOAD", "x", "garbage"], 0)).starts_with("ERR invalid dump payload: "));
    assert_eq!(message(&at(&mut s, vec!["LOAD", "x"], 0)), "ERR wrong number of arguments for LOAD");
}

#[test]
fn invalid_json_reports_the_parser_message() {
    let mut s = JsonStore::new();
    assert_eq!(
        message(&at(&mut s, vec!["JSON.SET", "doc", "$", "{"], 0)),
        "ERR invalid JSON: EOF while parsing an object at line 1 column 1"
    );
}

#[test]
fn glob_wildcards_match_line_breaks() {
    let mut s = JsonStore::new();
    at(&mut s, vec!["SET", "a\nb", "v"], 0);
    at(&mut s, vec!["SET", "x\ny", "v"], 0);
    let r = at(&mut s, vec!["KEYS", "a*"], 0);
    assert_eq!(r.array, vec![Some(WireValue::Str("a\nb".to_owned()))]);
    let r = at(&mut s, vec!["KEYS", "x?y"], 0);
    assert_eq!(r.array, vec![Some(WireValue::Str("x\ny".to_owned()))]);
}

#[test]
fn meta_characters_in_keys_match_literally() {
    let mut s = JsonStore::new();
    at(&mut s, vec!["SET", "a.b+c(d)|e{f}^g$h#i&j-k~l", "v"], 0);
    at(&mut s, vec!["SET", "axb", "v"], 0);
    let r = at(&mut s, vec!["KEYS", "a.b+c(d)|e{f}^g$h#i&j-k~l"], 0);
    assert_eq!(r.array, vec![Some(WireValue::Str("a.b+c(d)|e{f}^g$h#i&j-k~l".to_owned()))]);
}

fn load_text(store: &mut JsonStore, key: &str, payload: &str) -> ResponseFrame {
    let parts = vec!["LOAD".into(), key.into(), WireValue::Bytes(payload.as_bytes().to_vec())];
    decode_response(&store.handle_payload_at(&encode_command(parts).unwrap(), 0).unwrap()).unwrap()
}

#[test]
fn load_passes_over_members_it_does_not_read() {
    let mut s = JsonStore::new();
    let payload = "IX2D{\"note\":{\"a\":[1,-2.5e3,0.5E+2,true,false,null,\"x\\u00e9\\n\"],\"b\":{}},\"v\":1,\
                   \"is_json\":false, \"extra\" : [ ] ,\"value\":{\"type\":\"str\",\"data\":\"hello\"}}";
    assert_eq!(load_text(&mut s, "copy", payload), ResponseFrame::simple("OK"));
    assert_eq!(at(&mut s, vec!["GET", "copy"], 0), ResponseFrame::bulk("hello".into()));
}

#[test]
fn load_refuses_a_member_given_twice() {
    let mut s = JsonStore::new();
    let payload = "IX2D{\"v\":1,\"v\":1,\"is_json\":false,\"value\":{\"type\":\"str\",\"data\":\"x\"}}";
    assert_eq!(
        message(&load_text(&mut s, "copy", payload)),
        "ERR invalid dump payload: json error: malformed dump envelope"
    );
}

#[test]
fn load_refuses_a_malformed_member_it_does_not_read() {
    let mut s = JsonStore::new();
    let payload = "IX2D{\"note\":01,\"v\":1,\"is_json\":false,\"value\":{\"type\":\"str\",\"data\":\"x\"}}";
    assert!(message(&load_text(&mut s, "copy", payload)).starts_with("ERR invalid dump payload: json error: "));
    assert_eq!(at(&mut s, vec!["EXISTS", "copy"], 0), ResponseFrame::integer(0));
}

#[test]
fn load_reports_the_parser_message_for_a_body_that_is_not_json() {
    let mut s = JsonStore::new();
    assert_eq!(
        message(&load_text(&mut s, "copy", "IX2D{")),
        "ERR invalid dump payload: json error: EOF while parsing an object at line 1 column 1"
    );
    assert_eq!(
        message(&load_text(&mut s, "copy", "IX2D{\"v\":2,\"is_json\":false,\"value\":{}}")),
        "ERR invalid dump payload: io error: unsupported dump format version: 2"
    );
}

#[test]
fn load_checks_the_version_before_the_value() {
    let mut s = JsonStore::new();
    assert_eq!(
        message(&load_text(&mut s, "copy", "IX2D{\"v\":2,\"is_json\":false,\"value\":[5]}")),
        "ERR invalid dump payload: io error: unsupported dump format version: 2"
    );
    assert_eq!(
        message(&load_text(&mut s, "copy", "IX2D{\"v\":1,\"is_json\":false,\"value\":[5]}")),
        "ERR invalid dump payload: json error: malformed dump value"
    );
}
