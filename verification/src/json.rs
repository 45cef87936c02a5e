//! JSON text: validation and compaction through `serde_json`, and string
//! quoting as `serde_json` writes it.

use vstd::prelude::*;
use crate::text::push_char;
use crate::transport::hex_char;

verus! {

/// The compact text `serde_json` writes for the JSON document that the
/// given text holds, or `None` where `serde_json` does not read the text as
/// JSON.
pub uninterp spec fn json_compact(text: Seq<char>) -> Option<Seq<char>>;

/// The message of the error `serde_json` reports for text it does not read
/// as JSON.
pub uninterp spec fn json_error(text: Seq<char>) -> Seq<char>;

/// Reads `text` with `serde_json::from_str` into a `serde_json::Value` and
/// writes that value back with `to_string` (compact form); on failure, the
/// text of `serde_json::Error`. Both results are named.
#[verifier::external_body]
pub(crate) fn compact_json(text: &str) -> (r: Result<String, String>)
    ensures
        match r {
            Ok(c) => json_compact(text@) == Some(c@),
            Err(m) => json_compact(text@) is None && m@ == json_error(text@),
        },
{
    match serde_json::from_str::<serde_json::Value>(text) {
        Ok(v) => Ok(v.to_string()),
        Err(e) => Err(e.to_string()),
    }
}

/// The compact text `serde_json` writes for the JSON document that the
/// given bytes hold, or `None` where `serde_json` does not read them as
/// JSON.
pub uninterp spec fn json_compact_bytes(bytes: Seq<u8>) -> Option<Seq<char>>;

/// The message of the error `serde_json` reports for bytes it does not read
/// as JSON.
pub uninterp spec fn json_bytes_error(bytes: Seq<u8>) -> Seq<char>;

/// Reads bytes with `serde_json::from_slice` into a `serde_json::Value` and
/// writes that value back with `to_string` (compact form); on failure, the
/// text of `serde_json::Error`. Both results are named.
#[verifier::external_body]
pub(crate) fn compact_json_bytes(bytes: &[u8]) -> (r: Result<String, String>)
    ensures
        match r {
            Ok(c) => json_compact_bytes(bytes@) == Some(c@),
            Err(m) => json_compact_bytes(bytes@) is None && m@ == json_bytes_error(bytes@),
        },
{
    match serde_json::from_slice::<serde_json::Value>(bytes) {
        Ok(v) => Ok(v.to_string()),
        Err(e) => Err(e.to_string()),
    }
}

/// The compact form of JSON text, or the text itself where it is not JSON.
pub open spec fn compact_or_same(text: Seq<char>) -> Seq<char> {
    match json_compact(text) {
        Some(c) => c,
        None => text,
    }
}

/// The compact form of JSON text, or the text itself where it is not JSON.
pub fn compact_json_text(text: &str) -> (r: String)
    ensures
        r@ == compact_or_same(text@),
{
    match compact_json(text) {
        Ok(c) => c,
        Err(_) => crate::text::owned(text),
    }
}

/// How `serde_json` writes one character inside a JSON string.
pub open spec fn json_escape_char(c: char) -> Seq<char> {
    if c == '"' {
        seq!['\\', '"']
    } else if c == '\\' {
        seq!['\\', '\\']
    } else if c == '\u{8}' {
        seq!['\\', 'b']
    } else if c == '\u{c}' {
        seq!['\\', 'f']
    } else if c == '\n' {
        seq!['\\', 'n']
    } else if c == '\r' {
        seq!['\\', 'r']
    } else if c == '\t' {
        seq!['\\', 't']
    } else if (c as u32) < 0x20 {
        seq!['\\', 'u', '0', '0', hex_char((c as u32 / 16) as nat), hex_char((c as u32 % 16) as nat)]
    } else {
        seq![c]
    }
}

/// The characters of a string with each escaped as `serde_json` does.
pub open spec fn json_escape(s: Seq<char>) -> Seq<char>
    decreases s.len(),
{
    if s.len() == 0 {
        Seq::empty()
    } else {
        json_escape(s.drop_last()) + json_escape_char(s.last())
    }
}

/// A string as a JSON string literal, as `serde_json::to_string` writes it.
pub open spec fn json_quote(s: Seq<char>) -> Seq<char> {
    seq!['"'] + json_escape(s) + seq!['"']
}

fn small_hex(d: u32) -> (c: char)
    requires
        d < 16,
    ensures
        c == hex_char(d as nat),
{
    let code: u8 = if d < 10 {
        48 + d as u8
    } else {
        87 + d as u8
    };
    code as char
}

fn push_escaped(out: &mut String, c: char)
    ensures
        final(out)@ == old(out)@ + json_escape_char(c),
{
    if c == '"' {
        push_char(out, '\\');
        push_char(out, '"');
    } else if c == '\\' {
        push_char(out, '\\');
        push_char(out, '\\');
    } else if c == '\u{8}' {
        push_char(out, '\\');
        push_char(out, 'b');
    } else if c == '\u{c}' {
        push_char(out, '\\');
        push_char(out, 'f');
    } else if c == '\n' {
        push_char(out, '\\');
        push_char(out, 'n');
    } else if c == '\r' {
        push_char(out, '\\');
        push_char(out, 'r');
    } else if c == '\t' {
        push_char(out, '\\');
        push_char(out, 't');
    } else if (c as u32) < 0x20 {
        push_char(out, '\\');
        push_char(out, 'u');
        push_char(out, '0');
        push_char(out, '0');
        push_char(out, small_hex(c as u32 / 16));
        push_char(out, small_hex(c as u32 % 16));
    } else {
        push_char(out, c);
    }
    assert(final(out)@ =~= old(out)@ + json_escape_char(c));
}

/// A string as a JSON string literal, as `serde_json::to_string` writes it.
pub fn quote_json(s: &str) -> (r: String)
    ensures
        r@ == json_quote(s@),
{
    let chars = crate::text::chars_of(s);
    let mut out = String::new();
    push_char(&mut out, '"');
    let mut i: usize = 0;
    while i < chars.len()
        invariant
            i <= chars@.len(),
            out@ == seq!['"'] + json_escape(chars@.subrange(0, i as int)),
        decreases chars@.len() - i,
    {
        push_escaped(&mut out, chars[i]);
        proof {
            let t = chars@.subrange(0, i + 1);
            assert(t.drop_last() =~= chars@.subrange(0, i as int));
        }
        i = i + 1;
    }
    push_char(&mut out, '"');
    assert(chars@.subrange(0, chars@.len() as int) =~= s@);
    out
}

} // verus!
