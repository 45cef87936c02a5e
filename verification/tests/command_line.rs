use iox2redis_json::codec::WireValue;
use iox2redis_json::command_line::{command_parts, ClientCommand};

fn strs(v: &[&str]) -> Vec<WireValue> {
    v.iter().map(|s| WireValue::from(*s)).collect()
}

#[test]
fn set_command_parts_in_order() {
    let parts = command_parts(ClientCommand::SetKey {
        key: "k".to_owned(),
        value: "v".to_owned(),
        ex: Some("1.5".to_owned()),
        px: None,
        nx: true,
        xx: false,
        get: true,
    })
    .unwrap();
    assert_eq!(parts, strs(&["SET", "k", "v", "EX", "1.5", "NX", "GET"]));
}

#[test]
fn key_list_and_json_command_parts() {
    let keys = vec!["a".to_owned(), "b".to_owned()];
    assert_eq!(command_parts(ClientCommand::Del { keys: keys.clone() }).unwrap(), strs(&["DEL", "a", "b"]));
    assert_eq!(command_parts(ClientCommand::Mget { keys }).unwrap(), strs(&["MGET", "a", "b"]));
    assert_eq!(command_parts(ClientCommand::Ping).unwrap(), strs(&["PING"]));
    assert_eq!(
        command_parts(ClientCommand::JsonSet {
            key: "d".to_owned(),
            json: "{}".to_owned(),
            path: "$".to_owned(),
            nx: false,
            xx: true
        })
        .unwrap(),
        strs(&["JSON.SET", "d", "$", "{}", "XX"])
    );
}

#[test]
fn load_payload_is_base64() {
    let parts = command_parts(ClientCommand::Load {
        key: "k".to_owned(),
        payload_b64: "SVgyRA==".to_owned(),
        nx: true,
        xx: false,
    })
    .unwrap();
    assert_eq!(
        parts,
        vec!["LOAD".into(), "k".into(), WireValue::Bytes(b"IX2D".to_vec()), "NX".into()]
    );
    let bad = command_parts(ClientCommand::Load {
        key: "k".to_owned(),
        payload_b64: "!!!!".to_owned(),
        nx: false,
        xx: false,
    });
    assert_eq!(bad, Err("Invalid symbol 33, offset 0.".to_owned()));
}

#[test]
fn raw_command_needs_a_part() {
    assert_eq!(
        command_parts(ClientCommand::Raw { parts: Vec::new() }),
        Err("raw command requires at least one part".to_owned())
    );
    assert_eq!(
        command_parts(ClientCommand::Raw { parts: vec!["ECHO".to_owned(), "x".to_owned()] }).unwrap(),
        strs(&["ECHO", "x"])
    );
}
