//! Requests as the command-line client builds them from its arguments.

use vstd::prelude::*;
use crate::codec::{str_value, values_view, WireValue, WireValueView};
use crate::text::owned;

verus! {

/// A command as the command-line client takes it. Expiry times are given
/// as the text to send.
pub enum ClientCommand {
    Ping,
    SetKey { key: String, value: String, ex: Option<String>, px: Option<String>, nx: bool, xx: bool, get: bool },
    Get { key: String },
    Del { keys: Vec<String> },
    Exists { keys: Vec<String> },
    Mget { keys: Vec<String> },
    Keys { pattern: String },
    JsonSet { key: String, json: String, path: String, nx: bool, xx: bool },
    JsonGet { key: String, path: String },
    Dump { key: String },
    Load { key: String, payload_b64: String, nx: bool, xx: bool },
    Raw { parts: Vec<String> },
}

/// The bytes that the standard base64 alphabet (with padding) decodes a
/// text to, or `None` where `base64` refuses the text.
pub uninterp spec fn base64_decoded(text: Seq<char>) -> Option<Seq<u8>>;

/// The message of the error `base64` reports for a text it refuses.
pub uninterp spec fn base64_error(text: Seq<char>) -> Seq<char>;

/// Calls `base64::Engine::decode` with the standard engine; its result and
/// its error's text are named.
#[verifier::external_body]
fn base64_decode(text: &str) -> (r: Result<Vec<u8>, String>)
    ensures
        match r {
            Ok(b) => base64_decoded(text@) == Some(b@),
            Err(m) => base64_decoded(text@) is None && m@ == base64_error(text@),
        },
{
    match base64::Engine::decode(&base64::engine::general_purpose::STANDARD, text) {
        Ok(b) => Ok(b),
        Err(e) => Err(e.to_string()),
    }
}

/// A word as a string value.
pub open spec fn word(w: Seq<char>) -> WireValueView {
    WireValueView::Str(w)
}

/// Texts as string values.
pub open spec fn texts(ks: Seq<String>) -> Seq<WireValueView> {
    ks.map_values(|k: String| WireValueView::Str(k@))
}

/// A flag, where it is set.
pub open spec fn flag(on: bool, w: Seq<char>) -> Seq<WireValueView> {
    if on {
        seq![word(w)]
    } else {
        Seq::empty()
    }
}

/// An option and its value, where one is given.
pub open spec fn option_pair(o: Option<String>, w: Seq<char>) -> Seq<WireValueView> {
    match o {
        Some(t) => seq![word(w), WireValueView::Str(t@)],
        None => Seq::empty(),
    }
}

/// The parts of the request for a command; the `LOAD` payload must be
/// base64, and a raw command must have at least one part.
pub open spec fn spec_command_parts(c: ClientCommand) -> Result<Seq<WireValueView>, Seq<char>> {
    match c {
        ClientCommand::Ping => Ok(seq![word("PING"@)]),
        ClientCommand::SetKey { key, value, ex, px, nx, xx, get } => Ok(
            seq![word("SET"@), word(key@), word(value@)] + option_pair(ex, "EX"@) + option_pair(px, "PX"@)
                + flag(nx, "NX"@) + flag(xx, "XX"@) + flag(get, "GET"@),
        ),
        ClientCommand::Get { key } => Ok(seq![word("GET"@), word(key@)]),
        ClientCommand::Del { keys } => Ok(seq![word("DEL"@)] + texts(keys@)),
        ClientCommand::Exists { keys } => Ok(seq![word("EXISTS"@)] + texts(keys@)),
        ClientCommand::Mget { keys } => Ok(seq![word("MGET"@)] + texts(keys@)),
        ClientCommand::Keys { pattern } => Ok(seq![word("KEYS"@), word(pattern@)]),
        ClientCommand::JsonSet { key, json, path, nx, xx } => Ok(
            seq![word("JSON.SET"@), word(key@), word(path@), word(json@)] + flag(nx, "NX"@) + flag(xx, "XX"@),
        ),
        ClientCommand::JsonGet { key, path } => Ok(seq![word("JSON.GET"@), word(key@), word(path@)]),
        ClientCommand::Dump { key } => Ok(seq![word("DUMP"@), word(key@)]),
        ClientCommand::Load { key, payload_b64, nx, xx } => match base64_decoded(payload_b64@) {
            None => Err(base64_error(payload_b64@)),
            Some(b) => Ok(
                seq![word("LOAD"@), word(key@), WireValueView::Bytes(b)] + flag(nx, "NX"@) + flag(xx, "XX"@),
            ),
        },
        ClientCommand::Raw { parts } => if parts@.len() == 0 {
            Err("raw command requires at least one part"@)
        } else {
            Ok(texts(parts@))
        },
    }
}

/// The models of a parts-or-message result.
pub open spec fn parts_result(r: Result<Vec<WireValue>, String>) -> Result<Seq<WireValueView>, Seq<char>> {
    match r {
        Ok(v) => Ok(values_view(v@)),
        Err(m) => Err(m@),
    }
}

fn push_word(parts: &mut Vec<WireValue>, w: &str)
    ensures
        values_view(final(parts)@) == values_view(old(parts)@).push(word(w@)),
{
    let ghost before = parts@;
    parts.push(str_value(w));
    assert(values_view(parts@) =~= values_view(before).push(word(w@)));
}

fn push_flag(parts: &mut Vec<WireValue>, on: bool, w: &str)
    ensures
        values_view(final(parts)@) == values_view(old(parts)@) + flag(on, w@),
{
    if on {
        push_word(parts, w);
        assert(values_view(old(parts)@).push(word(w@)) =~= values_view(old(parts)@) + flag(on, w@));
    } else {
        assert(values_view(parts@) =~= values_view(parts@) + flag(on, w@));
    }
}

fn push_option(parts: &mut Vec<WireValue>, o: Option<String>, w: &str)
    ensures
        values_view(final(parts)@) == values_view(old(parts)@) + option_pair(o, w@),
{
    match o {
        Some(t) => {
            let ghost tv = t@;
            push_word(parts, w);
            let ghost mid = parts@;
            parts.push(WireValue::Str(t));
            assert(values_view(parts@) =~= values_view(mid).push(WireValueView::Str(tv)));
            assert(values_view(parts@) =~= values_view(old(parts)@) + option_pair(o, w@));
        },
        None => {
            assert(values_view(parts@) =~= values_view(parts@) + option_pair(o, w@));
        },
    }
}

fn push_texts(parts: &mut Vec<WireValue>, ks: Vec<String>)
    ensures
        values_view(final(parts)@) == values_view(old(parts)@) + texts(ks@),
{
    let mut i: usize = 0;
    while i < ks.len()
        invariant
            i <= ks@.len(),
            values_view(parts@) == values_view(old(parts)@) + texts(ks@.subrange(0, i as int)),
        decreases ks@.len() - i,
    {
        let ghost before = parts@;
        parts.push(WireValue::Str(ks[i].clone()));
        assert(texts(ks@.subrange(0, i + 1)) =~= texts(ks@.subrange(0, i as int)).push(WireValueView::Str(ks@[i as int]@)));
        assert(values_view(parts@) =~= values_view(before).push(WireValueView::Str(ks@[i as int]@)));
        i = i + 1;
    }
    assert(ks@.subrange(0, ks@.len() as int) =~= ks@);
}

/// The parts of the request for a command.
pub fn command_parts(c: ClientCommand) -> (r: Result<Vec<WireValue>, String>)
    ensures
        parts_result(r) == spec_command_parts(c),
{
    let ghost cv = c;
    let mut parts: Vec<WireValue> = Vec::new();
    assert(values_view(parts@) =~= Seq::<WireValueView>::empty());
    match c {
        ClientCommand::Ping => {
            push_word(&mut parts, "PING");
            proof {
                assert(values_view(parts@) =~= spec_command_parts(cv)->Ok_0);
            }
        },
        ClientCommand::SetKey { key, value, ex, px, nx, xx, get } => {
            push_word(&mut parts, "SET");
            push_word(&mut parts, key.as_str());
            push_word(&mut parts, value.as_str());
            push_option(&mut parts, ex, "EX");
            push_option(&mut parts, px, "PX");
            push_flag(&mut parts, nx, "NX");
            push_flag(&mut parts, xx, "XX");
            push_flag(&mut parts, get, "GET");
            proof {
                assert(values_view(parts@) =~= spec_command_parts(cv)->Ok_0);
            }
        },
        ClientCommand::Get { key } => {
            push_word(&mut parts, "GET");
            push_word(&mut parts, key.as_str());
            proof {
                assert(values_view(parts@) =~= spec_command_parts(cv)->Ok_0);
            }
        },
        ClientCommand::Del { keys } => {
            push_word(&mut parts, "DEL");
            push_texts(&mut parts, keys);
            proof {
                assert(values_view(parts@) =~= spec_command_parts(cv)->Ok_0);
            }
        },
        ClientCommand::Exists { keys } => {
            push_word(&mut parts, "EXISTS");
            push_texts(&mut parts, keys);
            proof {
                assert(values_view(parts@) =~= spec_command_parts(cv)->Ok_0);
            }
        },
        ClientCommand::Mget { keys } => {
            push_word(&mut parts, "MGET");
            push_texts(&mut parts, keys);
            proof {
                assert(values_view(parts@) =~= spec_command_parts(cv)->Ok_0);
            }
        },
        ClientCommand::Keys { pattern } => {
            push_word(&mut parts, "KEYS");
            push_word(&mut parts, pattern.as_str());
            proof {
                assert(values_view(parts@) =~= spec_command_parts(cv)->Ok_0);
            }
        },
        ClientCommand::JsonSet { key, json, path, nx, xx } => {
            push_word(&mut parts, "JSON.SET");
            push_word(&mut parts, key.as_str());
            push_word(&mut parts, path.as_str());
            push_word(&mut parts, json.as_str());
            push_flag(&mut parts, nx, "NX");
            push_flag(&mut parts, xx, "XX");
            proof {
                assert(values_view(parts@) =~= spec_command_parts(cv)->Ok_0);
            }
        },
        ClientCommand::JsonGet { key, path } => {
            push_word(&mut parts, "JSON.GET");
            push_word(&mut parts, key.as_str());
            push_word(&mut parts, path.as_str());
            proof {
                assert(values_view(parts@) =~= spec_command_parts(cv)->Ok_0);
            }
        },
        ClientCommand::Dump { key } => {
            push_word(&mut parts, "DUMP");
            push_word(&mut parts, key.as_str());
            proof {
                assert(values_view(parts@) =~= spec_command_parts(cv)->Ok_0);
            }
        },
        ClientCommand::Load { key, payload_b64, nx, xx } => {
            let payload = match base64_decode(payload_b64.as_str()) {
                Ok(b) => b,
                Err(m) => return Err(m),
            };
            let ghost bv = payload@;
            push_word(&mut parts, "LOAD");
            push_word(&mut parts, key.as_str());
            let ghost mid = parts@;
            parts.push(WireValue::Bytes(payload));
            assert(values_view(parts@) =~= values_view(mid).push(WireValueView::Bytes(bv)));
            push_flag(&mut parts, nx, "NX");
            push_flag(&mut parts, xx, "XX");
            proof {
                assert(values_view(parts@) =~= spec_command_parts(cv)->Ok_0);
            }
        },
        ClientCommand::Raw { parts: raw } => {
            if raw.len() == 0 {
                return Err(owned("raw command requires at least one part"));
            }
            push_texts(&mut parts, raw);
            proof {
                assert(values_view(parts@) =~= spec_command_parts(cv)->Ok_0);
            }
        },
    }
    Ok(parts)
}

/// The request for `set key value [--ex s] --px ms ...` carries the option
/// word `PX` followed by the milliseconds as given, right after the key and
/// value (and the `EX` pair, where there is one).
pub proof fn law_set_px_part(key: String, value: String, ex: Option<String>, t: String, nx: bool, xx: bool, get: bool)
    ensures
        ({
            let r = spec_command_parts(ClientCommand::SetKey { key, value, ex, px: Some(t), nx, xx, get });
            let i: int = if ex is Some {
                5
            } else {
                3
            };
            &&& r is Ok
            &&& r->Ok_0.len() > i + 1
            &&& r->Ok_0[i] == WireValueView::Str("PX"@)
            &&& r->Ok_0[i + 1] == WireValueView::Str(t@)
        }),
{
    let head = seq![word("SET"@), word(key@), word(value@)] + option_pair(ex, "EX"@);
    let tail = flag(nx, "NX"@) + flag(xx, "XX"@) + flag(get, "GET"@);
    let parts = head + option_pair(Some(t), "PX"@) + tail;
    let i: int = if ex is Some {
        5
    } else {
        3
    };
    assert(head.len() == i);
    assert(parts[i] == option_pair(Some(t), "PX"@)[0]);
    assert(parts[i + 1] == option_pair(Some(t), "PX"@)[1]);
    assert(spec_command_parts(ClientCommand::SetKey { key, value, ex, px: Some(t), nx, xx, get })->Ok_0
        =~= parts);
}

} // verus!
