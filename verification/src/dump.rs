//! The `DUMP` payload: `IX2D` followed by a JSON envelope
//!
//! ```text
//! {"v":1,"is_json":false,"ttl_ms":null,"value":{"type":"str","data":"hello"}}
//! ```
//!
//! `ttl_ms` is the time the entry has left, in whole milliseconds, or `null`
//! for an entry that does not expire. `value` carries the stored value:
//! `{"type":"none"}`, or a `type` of `bytes` (data in lower-case hex),
//! `str` or `json` (data as a JSON string).

use vstd::prelude::*;
use vstd::utf8::*;
use crate::codec::{value_bytes, WireValue, WireValueView};
use crate::item::{ItemView, StoredValue};
use crate::text::{owned, append, u64_text, nat_text, string_from_utf8};
use crate::json::{compact_json_bytes, json_bytes_error, json_compact_bytes};

verus! {

broadcast use {encode_utf8_valid_utf8, encode_utf8_decode_utf8};

// ---------------------------------------------------------------------------
// Tokens
// ---------------------------------------------------------------------------

/// The four magic bytes `IX2D` that open a dump payload.
pub open spec fn dump_magic() -> Seq<u8> {
    seq![73u8, 88u8, 50u8, 68u8]
}

pub open spec fn key_v() -> Seq<u8> {
    seq![118u8]
}

pub open spec fn key_is_json() -> Seq<u8> {
    seq![105u8, 115u8, 95u8, 106u8, 115u8, 111u8, 110u8]
}

pub open spec fn key_ttl_ms() -> Seq<u8> {
    seq![116u8, 116u8, 108u8, 95u8, 109u8, 115u8]
}

pub open spec fn key_value() -> Seq<u8> {
    seq![118u8, 97u8, 108u8, 117u8, 101u8]
}

pub open spec fn key_type() -> Seq<u8> {
    seq![116u8, 121u8, 112u8, 101u8]
}

pub open spec fn key_data() -> Seq<u8> {
    seq![100u8, 97u8, 116u8, 97u8]
}

pub open spec fn type_none() -> Seq<u8> {
    seq![110u8, 111u8, 110u8, 101u8]
}

pub open spec fn type_bytes() -> Seq<u8> {
    seq![98u8, 121u8, 116u8, 101u8, 115u8]
}

pub open spec fn type_str() -> Seq<u8> {
    seq![115u8, 116u8, 114u8]
}

pub open spec fn type_json() -> Seq<u8> {
    seq![106u8, 115u8, 111u8, 110u8]
}

pub open spec fn lit_true() -> Seq<u8> {
    seq![116u8, 114u8, 117u8, 101u8]
}

pub open spec fn lit_false() -> Seq<u8> {
    seq![102u8, 97u8, 108u8, 115u8, 101u8]
}

pub open spec fn lit_null() -> Seq<u8> {
    seq![110u8, 117u8, 108u8, 108u8]
}

/// A JSON string holding already escaped contents.
pub open spec fn quoted(e: Seq<u8>) -> Seq<u8> {
    seq![34u8] + e + seq![34u8]
}

/// A member name followed by its colon.
pub open spec fn member(k: Seq<u8>) -> Seq<u8> {
    quoted(k) + seq![58u8]
}

// ---------------------------------------------------------------------------
// Writing
// ---------------------------------------------------------------------------

/// The lower-case hex digit byte for a value below 16.
pub open spec fn hex_byte(d: nat) -> u8 {
    if d < 10 {
        (48 + d) as u8
    } else {
        (87 + d) as u8
    }
}

/// How one byte is written inside a JSON string (as `serde_json` escapes).
pub open spec fn escape_byte(b: u8) -> Seq<u8> {
    if b == 34 {
        seq![92u8, 34u8]
    } else if b == 92 {
        seq![92u8, 92u8]
    } else if b == 8 {
        seq![92u8, 98u8]
    } else if b == 12 {
        seq![92u8, 102u8]
    } else if b == 10 {
        seq![92u8, 110u8]
    } else if b == 13 {
        seq![92u8, 114u8]
    } else if b == 9 {
        seq![92u8, 116u8]
    } else if b < 32 {
        seq![92u8, 117u8, 48u8, 48u8, hex_byte((b / 16) as nat), hex_byte((b % 16) as nat)]
    } else {
        seq![b]
    }
}

/// The bytes of a string, escaped for a JSON string.
pub open spec fn escape_bytes(b: Seq<u8>) -> Seq<u8>
    decreases b.len(),
{
    if b.len() == 0 {
        Seq::empty()
    } else {
        escape_byte(b[0]) + escape_bytes(b.drop_first())
    }
}

/// Bytes as lower-case hexadecimal digits.
pub open spec fn hex_bytes(b: Seq<u8>) -> Seq<u8> {
    Seq::new(
        2 * b.len(),
        |i: int| if i % 2 == 0 { hex_byte((b[i / 2] / 16) as nat) } else { hex_byte((b[i / 2] % 16) as nat) },
    )
}

/// The decimal digits of a number.
pub open spec fn dec_bytes(n: nat) -> Seq<u8>
    decreases n,
{
    if n < 10 {
        seq![(48 + n) as u8]
    } else {
        dec_bytes(n / 10).push((48 + n % 10) as u8)
    }
}

/// The time an entry has left, in whole milliseconds and at most
/// `u64::MAX`; `None` for an entry that does not expire.
pub open spec fn ttl_ms_left(expires_at: Option<int>, now: int) -> Option<nat> {
    match expires_at {
        None => None,
        Some(e) => Some(
            if e <= now {
                0
            } else if (e - now) / 1000000 > u64::MAX {
                u64::MAX as nat
            } else {
                ((e - now) / 1000000) as nat
            },
        ),
    }
}

/// The `type` name of a value.
pub open spec fn kind_name(v: WireValueView) -> Seq<u8> {
    match v {
        WireValueView::Null => type_none(),
        WireValueView::Bytes(_) => type_bytes(),
        WireValueView::Str(_) => type_str(),
        WireValueView::Json(_) => type_json(),
    }
}

/// The escaped `data` text of a value, if it has one.
pub open spec fn data_text(v: WireValueView) -> Option<Seq<u8>> {
    match v {
        WireValueView::Null => None,
        WireValueView::Bytes(b) => Some(hex_bytes(b)),
        WireValueView::Str(s) => Some(escape_bytes(encode_utf8(s))),
        WireValueView::Json(s) => Some(escape_bytes(encode_utf8(s))),
    }
}

/// The `value` object of a dump.
pub open spec fn value_object(v: WireValueView) -> Seq<u8> {
    seq![123u8] + member(key_type()) + quoted(kind_name(v)) + match data_text(v) {
        None => Seq::empty(),
        Some(d) => seq![44u8] + member(key_data()) + quoted(d),
    } + seq![125u8]
}

/// The dump payload of an entry, taken at time `now`.
pub open spec fn spec_encode_dump(item: ItemView, now: int) -> Seq<u8> {
    dump_magic() + seq![123u8] + member(key_v()) + dec_bytes(1) + seq![44u8] + member(
        key_is_json(),
    ) + (if item.is_json {
        lit_true()
    } else {
        lit_false()
    }) + seq![44u8] + member(key_ttl_ms()) + match ttl_ms_left(item.expires_at, now) {
        None => lit_null(),
        Some(ms) => dec_bytes(ms),
    } + seq![44u8] + member(key_value()) + value_object(item.value) + seq![125u8]
}

fn push_all(out: &mut Vec<u8>, b: &[u8])
    ensures
        final(out)@ == old(out)@ + b@,
{
    let mut i: usize = 0;
    while i < b.len()
        invariant
            i <= b@.len(),
            out@ == old(out)@ + b@.subrange(0, i as int),
        decreases b@.len() - i,
    {
        out.push(b[i]);
        assert(b@.subrange(0, i + 1) =~= b@.subrange(0, i as int).push(b@[i as int]));
        i = i + 1;
    }
    assert(b@.subrange(0, b@.len() as int) =~= b@);
}

fn push_member(out: &mut Vec<u8>, k: &[u8])
    ensures
        final(out)@ == old(out)@ + member(k@),
{
    out.push(34);
    push_all(out, k);
    out.push(34);
    out.push(58);
    assert(final(out)@ =~= old(out)@ + member(k@));
}

fn hex_digit_byte(d: u8) -> (r: u8)
    requires
        d < 16,
    ensures
        r == hex_byte(d as nat),
{
    if d < 10 {
        48 + d
    } else {
        87 + d
    }
}

proof fn lemma_escape_bytes_push(b: Seq<u8>, x: u8)
    ensures
        escape_bytes(b.push(x)) == escape_bytes(b) + escape_byte(x),
    decreases b.len(),
{
    if b.len() == 0 {
        assert(b.push(x).drop_first() =~= Seq::<u8>::empty());
        assert(escape_bytes(b.push(x)) == escape_byte(x) + escape_bytes(Seq::<u8>::empty()));
        assert(escape_bytes(b.push(x)) =~= escape_bytes(b) + escape_byte(x));
    } else {
        lemma_escape_bytes_push(b.drop_first(), x);
        assert(b.push(x).drop_first() =~= b.drop_first().push(x));
        assert(b.push(x)[0] == b[0]);
        assert(escape_bytes(b.push(x)) == escape_byte(b[0]) + escape_bytes(b.drop_first().push(x)));
        assert(escape_bytes(b.push(x)) =~= escape_bytes(b) + escape_byte(x));
    }
}

fn push_escaped_byte(out: &mut Vec<u8>, b: u8)
    ensures
        final(out)@ == old(out)@ + escape_byte(b),
{
    if b == 34 {
        out.push(92);
        out.push(34);
    } else if b == 92 {
        out.push(92);
        out.push(92);
    } else if b == 8 {
        out.push(92);
        out.push(98);
    } else if b == 12 {
        out.push(92);
        out.push(102);
    } else if b == 10 {
        out.push(92);
        out.push(110);
    } else if b == 13 {
        out.push(92);
        out.push(114);
    } else if b == 9 {
        out.push(92);
        out.push(116);
    } else if b < 32 {
        out.push(92);
        out.push(117);
        out.push(48);
        out.push(48);
        out.push(hex_digit_byte(b / 16));
        out.push(hex_digit_byte(b % 16));
    } else {
        out.push(b);
    }
    assert(final(out)@ =~= old(out)@ + escape_byte(b));
}

fn push_escaped(out: &mut Vec<u8>, b: &[u8])
    ensures
        final(out)@ == old(out)@ + escape_bytes(b@),
{
    let mut i: usize = 0;
    while i < b.len()
        invariant
            i <= b@.len(),
            out@ == old(out)@ + escape_bytes(b@.subrange(0, i as int)),
        decreases b@.len() - i,
    {
        push_escaped_byte(out, b[i]);
        proof {
            lemma_escape_bytes_push(b@.subrange(0, i as int), b@[i as int]);
            assert(b@.subrange(0, i as int).push(b@[i as int]) =~= b@.subrange(0, i + 1));
        }
        i = i + 1;
    }
    assert(b@.subrange(0, b@.len() as int) =~= b@);
}

fn push_hex(out: &mut Vec<u8>, b: &[u8])
    ensures
        final(out)@ == old(out)@ + hex_bytes(b@),
{
    let mut i: usize = 0;
    while i < b.len()
        invariant
            i <= b@.len(),
            out@ == old(out)@ + hex_bytes(b@).subrange(0, 2 * i),
        decreases b@.len() - i,
    {
        out.push(hex_digit_byte(b[i] / 16));
        out.push(hex_digit_byte(b[i] % 16));
        proof {
            let h = hex_bytes(b@);
            assert(h.subrange(0, 2 * i + 2) =~= h.subrange(0, 2 * i).push(h[2 * i]).push(
                h[2 * i + 1],
            ));
        }
        i = i + 1;
    }
    assert(hex_bytes(b@).subrange(0, 2 * b@.len() as int) =~= hex_bytes(b@));
}

fn push_dec(out: &mut Vec<u8>, n: u64)
    ensures
        final(out)@ == old(out)@ + dec_bytes(n as nat),
    decreases n,
{
    if n < 10 {
        out.push(48 + n as u8);
        assert(final(out)@ =~= old(out)@ + dec_bytes(n as nat));
    } else {
        push_dec(out, n / 10);
        out.push(48 + (n % 10) as u8);
        assert(final(out)@ =~= old(out)@ + dec_bytes(n as nat));
    }
}

/// The time an entry has left, in whole milliseconds and at most
/// `u64::MAX`.
fn ttl_ms(expires_at: Option<u128>, now: u128) -> (r: Option<u64>)
    ensures
        match ttl_ms_left(crate::item::expiry_view(expires_at), now as int) {
            None => r is None,
            Some(ms) => r == Some(ms as u64),
        },
{
    match expires_at {
        None => None,
        Some(e) => {
            if e <= now {
                Some(0)
            } else {
                let ms = (e - now) / 1000000;
                if ms > u64::MAX as u128 {
                    Some(u64::MAX)
                } else {
                    Some(ms as u64)
                }
            }
        },
    }
}

fn push_value_object(out: &mut Vec<u8>, value: &WireValue)
    ensures
        final(out)@ == old(out)@ + value_object(value@),
{
    out.push(123);
    push_member(out, &[116, 121, 112, 101]);
    out.push(34);
    match value {
        WireValue::Null => push_all(out, &[110, 111, 110, 101]),
        WireValue::Bytes(_) => push_all(out, &[98, 121, 116, 101, 115]),
        WireValue::Str(_) => push_all(out, &[115, 116, 114]),
        WireValue::Json(_) => push_all(out, &[106, 115, 111, 110]),
    }
    out.push(34);
    let ghost mid = out@;
    match value {
        WireValue::Null => {},
        WireValue::Bytes(b) => {
            out.push(44);
            push_member(out, &[100, 97, 116, 97]);
            out.push(34);
            push_hex(out, b.as_slice());
            out.push(34);
        },
        WireValue::Str(s) => {
            out.push(44);
            push_member(out, &[100, 97, 116, 97]);
            out.push(34);
            push_escaped(out, s.as_str().as_bytes());
            out.push(34);
        },
        WireValue::Json(s) => {
            out.push(44);
            push_member(out, &[100, 97, 116, 97]);
            out.push(34);
            push_escaped(out, s.as_str().as_bytes());
            out.push(34);
        },
    }
    assert(out@ =~= mid + match data_text(value@) {
        None => Seq::empty(),
        Some(d) => seq![44u8] + member(key_data()) + quoted(d),
    });
    out.push(125);
    assert(out@ =~= old(out)@ + value_object(value@));
}

/// The dump payload of an entry, taken at time `now`.
pub fn encode_dump_payload(item: &StoredValue, now: u128) -> (r: Vec<u8>)
    ensures
        r@ == spec_encode_dump(item@, now as int),
{
    let mut out: Vec<u8> = Vec::new();
    push_all(&mut out, &[73, 88, 50, 68]);
    out.push(123);
    push_member(&mut out, &[118]);
    push_dec(&mut out, 1);
    out.push(44);
    push_member(&mut out, &[105, 115, 95, 106, 115, 111, 110]);
    if item.is_json {
        push_all(&mut out, &[116, 114, 117, 101]);
    } else {
        push_all(&mut out, &[102, 97, 108, 115, 101]);
    }
    out.push(44);
    let ghost a = out@;
    push_member(&mut out, &[116, 116, 108, 95, 109, 115]);
    match ttl_ms(item.expires_at, now) {
        None => push_all(&mut out, &[110, 117, 108, 108]),
        Some(ms) => push_dec(&mut out, ms),
    }
    out.push(44);
    let ghost b = out@;
    push_member(&mut out, &[118, 97, 108, 117, 101]);
    push_value_object(&mut out, &item.value);
    out.push(125);
    assert(a =~= dump_magic() + seq![123u8] + member(key_v()) + dec_bytes(1) + seq![44u8]
        + member(key_is_json()) + (if item.is_json {
        lit_true()
    } else {
        lit_false()
    }) + seq![44u8]);
    assert(b =~= a + member(key_ttl_ms()) + match ttl_ms_left(item@.expires_at, now as int) {
        None => lit_null(),
        Some(ms) => dec_bytes(ms),
    } + seq![44u8]);
    assert(out@ =~= spec_encode_dump(item@, now as int));
    out
}

// ---------------------------------------------------------------------------
// Reading
// ---------------------------------------------------------------------------

pub open spec fn is_ws(b: u8) -> bool {
    b == 32 || b == 9 || b == 10 || b == 13
}

/// The position after the whitespace that starts at `p`.
pub open spec fn skip_ws(s: Seq<u8>, p: int) -> int
    decreases s.len() - p,
{
    if 0 <= p < s.len() && is_ws(s[p]) {
        skip_ws(s, p + 1)
    } else {
        p
    }
}

/// The value of a hexadecimal digit byte, of either case.
pub open spec fn hex_val(c: u8) -> Option<nat> {
    if 48 <= c <= 57 {
        Some((c - 48) as nat)
    } else if 97 <= c <= 102 {
        Some((c - 87) as nat)
    } else if 65 <= c <= 70 {
        Some((c - 55) as nat)
    } else {
        None
    }
}

/// The four hexadecimal digits at position `p`, as a number.
pub open spec fn hex4(s: Seq<u8>, p: int) -> Option<nat> {
    if 0 <= p && p + 4 <= s.len() && hex_val(s[p]) is Some && hex_val(s[p + 1]) is Some
        && hex_val(s[p + 2]) is Some && hex_val(s[p + 3]) is Some {
        Some(
            ((hex_val(s[p])->0 * 16 + hex_val(s[p + 1])->0) * 16 + hex_val(s[p + 2])->0) * 16
                + hex_val(s[p + 3])->0,
        )
    } else {
        None
    }
}

/// The UTF-8 bytes of a Unicode scalar value.
pub open spec fn utf8_of_scalar(c: nat) -> Seq<u8> {
    if c < 0x80 {
        seq![c as u8]
    } else if c < 0x800 {
        seq![(0xC0 + c / 64) as u8, (0x80 + c % 64) as u8]
    } else if c < 0x10000 {
        seq![(0xE0 + c / 4096) as u8, (0x80 + (c / 64) % 64) as u8, (0x80 + c % 64) as u8]
    } else {
        seq![
            (0xF0 + c / 262144) as u8,
            (0x80 + (c / 4096) % 64) as u8,
            (0x80 + (c / 64) % 64) as u8,
            (0x80 + c % 64) as u8,
        ]
    }
}

/// Reads the escape sequence that starts (with a backslash) at `p`: the
/// bytes it stands for and the position after it.
pub open spec fn read_escape(s: Seq<u8>, p: int) -> Option<(Seq<u8>, int)> {
    if p < 0 || p + 1 >= s.len() {
        None
    } else {
        let e = s[p + 1];
        if e == 34 {
            Some((seq![34u8], p + 2))
        } else if e == 92 {
            Some((seq![92u8], p + 2))
        } else if e == 47 {
            Some((seq![47u8], p + 2))
        } else if e == 98 {
            Some((seq![8u8], p + 2))
        } else if e == 102 {
            Some((seq![12u8], p + 2))
        } else if e == 110 {
            Some((seq![10u8], p + 2))
        } else if e == 114 {
            Some((seq![13u8], p + 2))
        } else if e == 116 {
            Some((seq![9u8], p + 2))
        } else if e == 117 {
            match hex4(s, p + 2) {
                None => None,
                Some(u) => if 0xD800 <= u < 0xDC00 {
                    if s.len() - p > 7 && s[p + 6] == 92 && s[p + 7] == 117 {
                        match hex4(s, p + 8) {
                            Some(w) => if 0xDC00 <= w < 0xE000 {
                                Some(
                                    (
                                        utf8_of_scalar(
                                            (0x10000 + (u - 0xD800) * 0x400 + (w - 0xDC00)) as nat,
                                        ),
                                        p + 12,
                                    ),
                                )
                            } else {
                                None
                            },
                            None => None,
                        }
                    } else {
                        None
                    }
                } else if 0xDC00 <= u < 0xE000 {
                    None
                } else {
                    Some((utf8_of_scalar(u), p + 6))
                },
            }
        } else {
            None
        }
    }
}

pub proof fn lemma_read_escape_progress(s: Seq<u8>, p: int)
    ensures
        read_escape(s, p) matches Some((b, q)) ==> p < q <= s.len(),
{
}

/// Reads the rest of a JSON string from position `p` (after its opening
/// quote): the bytes it stands for and the position after its closing
/// quote.
pub open spec fn read_str_body(s: Seq<u8>, p: int) -> Option<(Seq<u8>, int)>
    decreases s.len() - p,
{
    if p < 0 || p >= s.len() {
        None
    } else if s[p] == 34 {
        Some((Seq::empty(), p + 1))
    } else if s[p] < 32 {
        None
    } else if s[p] == 92 {
        match read_escape(s, p) {
            None => None,
            Some((b, q)) => {
                proof {
                    lemma_read_escape_progress(s, p);
                }
                match read_str_body(s, q) {
                    None => None,
                    Some((r, t)) => Some((b + r, t)),
                }
            },
        }
    } else {
        match read_str_body(s, p + 1) {
            None => None,
            Some((r, t)) => Some((seq![s[p]] + r, t)),
        }
    }
}

/// Reads a JSON string at position `p`.
pub open spec fn read_string(s: Seq<u8>, p: int) -> Option<(Seq<u8>, int)> {
    if 0 <= p < s.len() && s[p] == 34 {
        read_str_body(s, p + 1)
    } else {
        None
    }
}

pub open spec fn is_digit_byte(b: u8) -> bool {
    48 <= b <= 57
}

/// The end of the run of digits that starts at `p`.
pub open spec fn digit_end(s: Seq<u8>, p: int) -> int
    decreases s.len() - p,
{
    if 0 <= p < s.len() && is_digit_byte(s[p]) {
        digit_end(s, p + 1)
    } else {
        p
    }
}

/// The number that decimal digit bytes write.
pub open spec fn dec_value(ds: Seq<u8>) -> nat
    decreases ds.len(),
{
    if ds.len() == 0 {
        0
    } else {
        dec_value(ds.drop_last()) * 10 + (ds.last() - 48) as nat
    }
}

/// Reads an unsigned JSON integer at most `max` at position `p`.
pub open spec fn read_uint(s: Seq<u8>, p: int, max: nat) -> Option<(nat, int)> {
    if p < 0 || p >= s.len() {
        None
    } else if s[p] == 48 {
        Some((0, p + 1))
    } else if 49 <= s[p] <= 57 {
        let e = digit_end(s, p);
        let v = dec_value(s.subrange(p, e));
        if v > max {
            None
        } else {
            Some((v, e))
        }
    } else {
        None
    }
}

/// Whether the bytes at `p` spell `lit`.
pub open spec fn at(s: Seq<u8>, p: int, lit: Seq<u8>) -> bool {
    0 <= p && p + lit.len() <= s.len() && s.subrange(p, p + lit.len()) == lit
}

/// The members of a `value` object read so far: its type and its data.
pub struct ValueSlots {
    pub kind: Option<Seq<u8>>,
    pub data: Option<Seq<u8>>,
}

/// Reads the members of a `value` object from `p` (at a member name) up to
/// and past its closing brace.
#[verifier::opaque]
pub open spec fn value_members(s: Seq<u8>, p: int, st: ValueSlots) -> Option<(ValueSlots, int)>
    decreases s.len() - p,
{
    match read_string(s, p) {
        None => None,
        Some((key, p1)) => {
            let p2 = skip_ws(s, p1);
            if !(0 <= p2 < s.len() && s[p2] == 58) {
                None
            } else {
                let p3 = skip_ws(s, p2 + 1);
                let field = if key == key_type() && st.kind is None {
                    match read_string(s, p3) {
                        Some((v, q)) => Some((ValueSlots { kind: Some(v), ..st }, q)),
                        None => None,
                    }
                } else if key == key_data() && st.data is None {
                    match read_string(s, p3) {
                        Some((v, q)) => Some((ValueSlots { data: Some(v), ..st }, q)),
                        None => None,
                    }
                } else {
                    None
                };
                match field {
                    None => None,
                    Some((st2, p4)) => {
                        let p5 = skip_ws(s, p4);
                        if 0 <= p5 < s.len() && s[p5] == 44 {
                            proof {
                                lemma_read_string_progress(s, p);
                                lemma_skip_ws_bounds(s, p1);
                                lemma_skip_ws_bounds(s, p2 + 1);
                                lemma_read_string_progress(s, p3);
                                lemma_skip_ws_bounds(s, p4);
                                lemma_skip_ws_bounds(s, p5 + 1);
                            }
                            value_members(s, skip_ws(s, p5 + 1), st2)
                        } else if 0 <= p5 < s.len() && s[p5] == 125 {
                            Some((st2, p5 + 1))
                        } else {
                            None
                        }
                    },
                }
            }
        },
    }
}

pub proof fn lemma_skip_ws_bounds(s: Seq<u8>, p: int)
    requires
        0 <= p <= s.len(),
    ensures
        p <= skip_ws(s, p) <= s.len(),
    decreases s.len() - p,
{
    if p < s.len() && is_ws(s[p]) {
        lemma_skip_ws_bounds(s, p + 1);
    }
}

pub proof fn lemma_read_str_body_progress(s: Seq<u8>, p: int)
    ensures
        read_str_body(s, p) matches Some((b, q)) ==> p < q <= s.len(),
    decreases s.len() - p,
{
    if 0 <= p < s.len() && s[p] != 34 && s[p] >= 32 {
        if s[p] == 92 {
            if let Some((b, q)) = read_escape(s, p) {
                lemma_read_str_body_progress(s, q);
            }
        } else {
            lemma_read_str_body_progress(s, p + 1);
        }
    }
}

pub proof fn lemma_read_string_progress(s: Seq<u8>, p: int)
    ensures
        read_string(s, p) matches Some((b, q)) ==> p < q <= s.len(),
{
    lemma_read_str_body_progress(s, p + 1);
}

/// Reads a `value` object at position `p`.
pub open spec fn read_value_object(s: Seq<u8>, p: int) -> Option<(ValueSlots, int)> {
    if !(0 <= p < s.len() && s[p] == 123) {
        None
    } else {
        let q = skip_ws(s, p + 1);
        if 0 <= q < s.len() && s[q] == 125 {
            Some((ValueSlots { kind: None, data: None }, q + 1))
        } else {
            value_members(s, q, ValueSlots { kind: None, data: None })
        }
    }
}

/// Skips the rest of a JSON string from position `p` (after its opening
/// quote), as a value that is read only to be passed over: control bytes
/// are refused and each escape must be well formed, but the code points of
/// `\u` escapes are not checked. The position after the closing quote.
pub open spec fn skip_str_body(s: Seq<u8>, p: int) -> Option<int>
    decreases s.len() - p,
{
    if p < 0 || p >= s.len() {
        None
    } else if s[p] == 34 {
        Some(p + 1)
    } else if s[p] < 32 {
        None
    } else if s[p] == 92 {
        if p + 1 >= s.len() {
            None
        } else {
            let e = s[p + 1];
            if e == 34 || e == 92 || e == 47 || e == 98 || e == 102 || e == 110 || e == 114 || e == 116 {
                skip_str_body(s, p + 2)
            } else if e == 117 && hex4(s, p + 2) is Some {
                skip_str_body(s, p + 6)
            } else {
                None
            }
        }
    } else {
        skip_str_body(s, p + 1)
    }
}

/// The end of the run of digits at `p`, where there is at least one digit.
pub open spec fn some_digits(s: Seq<u8>, p: int) -> Option<int> {
    let e = digit_end(s, p);
    if e == p {
        None
    } else {
        Some(e)
    }
}

/// The end of the fraction and exponent, if any, that follow the integer
/// part of a number ending at `e`.
pub open spec fn skip_number_tail(s: Seq<u8>, e: int) -> Option<int> {
    let f = if 0 <= e < s.len() && s[e] == 46 {
        some_digits(s, e + 1)
    } else {
        Some(e)
    };
    match f {
        None => None,
        Some(f) => if 0 <= f < s.len() && (s[f] == 101 || s[f] == 69) {
            let g = if f + 1 < s.len() && (s[f + 1] == 43 || s[f + 1] == 45) {
                f + 2
            } else {
                f + 1
            };
            some_digits(s, g)
        } else {
            Some(f)
        },
    }
}

/// Skips a JSON number at `p`: an optional minus, an integer part without
/// leading zeros, then perhaps a fraction and an exponent.
pub open spec fn skip_number(s: Seq<u8>, p: int) -> Option<int> {
    let p1 = if 0 <= p < s.len() && s[p] == 45 {
        p + 1
    } else {
        p
    };
    if !(0 <= p1 < s.len()) {
        None
    } else if s[p1] == 48 {
        if p1 + 1 < s.len() && is_digit_byte(s[p1 + 1]) {
            None
        } else {
            skip_number_tail(s, p1 + 1)
        }
    } else if 49 <= s[p1] <= 57 {
        skip_number_tail(s, digit_end(s, p1))
    } else {
        None
    }
}

/// Skips the JSON value at `p`, as a member that is not read is passed
/// over: the position after it.
#[verifier::opaque]
pub open spec fn skip_value(s: Seq<u8>, p: int) -> Option<int>
    decreases s.len() - p, 0int,
{
    if !(0 <= p < s.len()) {
        None
    } else {
        let c = s[p];
        if c == 110 {
            if at(s, p, lit_null()) {
                Some(p + 4)
            } else {
                None
            }
        } else if c == 116 {
            if at(s, p, lit_true()) {
                Some(p + 4)
            } else {
                None
            }
        } else if c == 102 {
            if at(s, p, lit_false()) {
                Some(p + 5)
            } else {
                None
            }
        } else if c == 45 || is_digit_byte(c) {
            skip_number(s, p)
        } else if c == 34 {
            skip_str_body(s, p + 1)
        } else if c == 91 {
            let q = skip_ws(s, p + 1);
            if !(p < q <= s.len()) {
                None
            } else if q < s.len() && s[q] == 93 {
                Some(q + 1)
            } else {
                skip_elems(s, q)
            }
        } else if c == 123 {
            let q = skip_ws(s, p + 1);
            if !(p < q <= s.len()) {
                None
            } else if q < s.len() && s[q] == 125 {
                Some(q + 1)
            } else {
                skip_members(s, q)
            }
        } else {
            None
        }
    }
}

/// Skips the elements of an array from `p` (at an element) up to and past
/// its closing bracket.
#[verifier::opaque]
pub open spec fn skip_elems(s: Seq<u8>, p: int) -> Option<int>
    decreases s.len() - p, 1int,
{
    match skip_value(s, p) {
        None => None,
        Some(v) => if !(p < v <= s.len()) {
            None
        } else {
            let q = skip_ws(s, v);
            if !(v <= q) {
                None
            } else if q < s.len() && s[q] == 44 {
                let n = skip_ws(s, q + 1);
                if !(q < n <= s.len()) {
                    None
                } else {
                    skip_elems(s, n)
                }
            } else if q < s.len() && s[q] == 93 {
                Some(q + 1)
            } else {
                None
            }
        },
    }
}

/// Skips the members of an object from `p` (at a member name) up to and
/// past its closing brace.
#[verifier::opaque]
pub open spec fn skip_members(s: Seq<u8>, p: int) -> Option<int>
    decreases s.len() - p, 1int,
{
    if !(0 <= p < s.len() && s[p] == 34) {
        None
    } else {
        match skip_str_body(s, p + 1) {
            None => None,
            Some(k) => {
                let q1 = skip_ws(s, k);
                if !(p < q1 && q1 < s.len() && s[q1] == 58) {
                    None
                } else {
                    let q2 = skip_ws(s, q1 + 1);
                    if !(q1 < q2 <= s.len()) {
                        None
                    } else {
                        match skip_value(s, q2) {
                            None => None,
                            Some(v) => if !(q2 < v <= s.len()) {
                                None
                            } else {
                                let q3 = skip_ws(s, v);
                                if !(v <= q3) {
                                    None
                                } else if q3 < s.len() && s[q3] == 44 {
                                    let n = skip_ws(s, q3 + 1);
                                    if !(q3 < n <= s.len()) {
                                        None
                                    } else {
                                        skip_members(s, n)
                                    }
                                } else if q3 < s.len() && s[q3] == 125 {
                                    Some(q3 + 1)
                                } else {
                                    None
                                }
                            },
                        }
                    }
                }
            },
        }
    }
}

pub proof fn lemma_skip_str_progress(s: Seq<u8>, p: int)
    ensures
        skip_str_body(s, p) matches Some(q) ==> p < q <= s.len(),
    decreases s.len() - p,
{
    if 0 <= p < s.len() && s[p] != 34 && s[p] >= 32 {
        if s[p] == 92 {
            if p + 1 < s.len() {
                lemma_skip_str_progress(s, p + 2);
                if hex4(s, p + 2) is Some {
                    lemma_skip_str_progress(s, p + 6);
                }
            }
        } else {
            lemma_skip_str_progress(s, p + 1);
        }
    }
}

pub proof fn lemma_skip_number_progress(s: Seq<u8>, p: int)
    requires
        0 <= p,
    ensures
        skip_number(s, p) matches Some(q) ==> p < q <= s.len(),
{
    if p < s.len() {
        lemma_digit_end_bounds(s, p);
        lemma_digit_end_bounds(s, p + 1);
        let p1 = if s[p] == 45 {
            p + 1
        } else {
            p
        };
        if p1 < s.len() {
            lemma_digit_end_bounds(s, p1);
            lemma_digit_end_bounds(s, p1 + 1);
            let e = if s[p1] == 48 {
                p1 + 1
            } else {
                digit_end(s, p1)
            };
            if e < s.len() {
                lemma_digit_end_bounds(s, e + 1);
            }
            let f = if 0 <= e < s.len() && s[e] == 46 {
                digit_end(s, e + 1)
            } else {
                e
            };
            if 0 <= f < s.len() {
                lemma_digit_end_bounds(s, f + 1);
                if f + 1 < s.len() {
                    lemma_digit_end_bounds(s, f + 2);
                }
            }
        }
    }
}

/// A skipped value, array or object ends after where it starts, and within
/// the text.
pub proof fn lemma_skip_progress(s: Seq<u8>, p: int)
    ensures
        skip_value(s, p) matches Some(q) ==> p < q <= s.len(),
        skip_elems(s, p) matches Some(q) ==> p < q <= s.len(),
        skip_members(s, p) matches Some(q) ==> p < q <= s.len(),
    decreases s.len() - p,
{
    reveal(skip_value);
    reveal(skip_elems);
    reveal(skip_members);
    if 0 <= p < s.len() {
        lemma_skip_str_progress(s, p + 1);
        lemma_skip_number_progress(s, p);
        let q = skip_ws(s, p + 1);
        if p < q <= s.len() {
            lemma_skip_progress(s, q);
        }
        if let Some(v) = skip_value(s, p) {
            if p < v <= s.len() {
                let r = skip_ws(s, v);
                if v <= r < s.len() {
                    let n = skip_ws(s, r + 1);
                    if r < n <= s.len() {
                        lemma_skip_progress(s, n);
                    }
                }
            }
        }
        if s[p] == 34 {
            if let Some(k) = skip_str_body(s, p + 1) {
                let q1 = skip_ws(s, k);
                if p < q1 < s.len() {
                    let q2 = skip_ws(s, q1 + 1);
                    if q1 < q2 <= s.len() {
                        if let Some(v) = skip_value(s, q2) {
                            if q2 < v <= s.len() {
                                let q3 = skip_ws(s, v);
                                if v <= q3 < s.len() {
                                    let n = skip_ws(s, q3 + 1);
                                    if q3 < n <= s.len() {
                                        lemma_skip_progress(s, n);
                                    }
                                }
                            }
                        }
                    }
                }
            }
        }
    }
}

/// Passes over the value of a member the envelope does not read: the
/// position after it, where the member's name is valid UTF-8.
#[verifier::opaque]
pub open spec fn skip_unknown(s: Seq<u8>, p: int, key: Seq<u8>) -> Option<int> {
    if valid_utf8(key) {
        skip_value(s, p)
    } else {
        None
    }
}

/// Whether a member name is one the envelope reads.
pub open spec fn is_envelope_key(key: Seq<u8>) -> bool {
    key == key_v() || key == key_is_json() || key == key_ttl_ms() || key == key_value()
}

/// The members of the envelope read so far.
pub struct EnvSlots {
    pub v: Option<nat>,
    pub is_json: Option<bool>,
    pub ttl: Option<Option<nat>>,
    /// The `value` member, where it was given: its members, where it is an
    /// object of the kind a value is written as.
    pub value: Option<Option<ValueSlots>>,
}

/// Reads the value of the envelope member `key` at position `p`. A member
/// given twice is refused; the value of a member the envelope does not
/// read is passed over, where its name is valid UTF-8.
pub open spec fn env_field(s: Seq<u8>, p: int, key: Seq<u8>, st: EnvSlots) -> Option<(EnvSlots, int)> {
    if key == key_v() && st.v is None {
        match read_uint(s, p, 255) {
            Some((n, q)) => Some((EnvSlots { v: Some(n), ..st }, q)),
            None => None,
        }
    } else if key == key_is_json() && st.is_json is None {
        if at(s, p, lit_true()) {
            Some((EnvSlots { is_json: Some(true), ..st }, p + 4))
        } else if at(s, p, lit_false()) {
            Some((EnvSlots { is_json: Some(false), ..st }, p + 5))
        } else {
            None
        }
    } else if key == key_ttl_ms() && st.ttl is None {
        if at(s, p, lit_null()) {
            Some((EnvSlots { ttl: Some(None), ..st }, p + 4))
        } else {
            match read_uint(s, p, u64::MAX as nat) {
                Some((n, q)) => Some((EnvSlots { ttl: Some(Some(n)), ..st }, q)),
                None => None,
            }
        }
    } else if key == key_value() && st.value is None {
        match read_value_object(s, p) {
            Some((vs, q)) => Some((EnvSlots { value: Some(Some(vs)), ..st }, q)),
            None => match skip_value(s, p) {
                Some(q) => Some((EnvSlots { value: Some(None), ..st }, q)),
                None => None,
            },
        }
    } else if !is_envelope_key(key) {
        match skip_unknown(s, p, key) {
            Some(q) => Some((st, q)),
            None => None,
        }
    } else {
        None
    }
}

pub proof fn lemma_field_progress(s: Seq<u8>, p: int, key: Seq<u8>, st: EnvSlots)
    requires
        0 <= p <= s.len(),
    ensures
        env_field(s, p, key, st) matches Some((st2, q)) ==> p < q <= s.len(),
{
    if p < s.len() {
        lemma_digit_end_bounds(s, p + 1);
        lemma_digit_end_bounds(s, p);
        lemma_skip_ws_bounds(s, p + 1);
        lemma_value_members_progress(s, skip_ws(s, p + 1), ValueSlots { kind: None, data: None });
    }
    lemma_skip_progress(s, p);
    reveal(skip_unknown);
}

pub proof fn lemma_digit_end_bounds(s: Seq<u8>, p: int)
    requires
        0 <= p <= s.len() + 1,
    ensures
        p <= s.len() ==> p <= digit_end(s, p) <= s.len(),
    decreases s.len() - p,
{
    if 0 <= p < s.len() && is_digit_byte(s[p]) {
        lemma_digit_end_bounds(s, p + 1);
    }
}

pub proof fn lemma_value_members_progress(s: Seq<u8>, p: int, st: ValueSlots)
    ensures
        value_members(s, p, st) matches Some((st2, q)) ==> p < q <= s.len(),
    decreases s.len() - p,
{
    reveal(value_members);
    if let Some((key, p1)) = read_string(s, p) {
        lemma_read_string_progress(s, p);
        lemma_skip_ws_bounds(s, p1);
        let p2 = skip_ws(s, p1);
        if 0 <= p2 < s.len() && s[p2] == 58 {
            let p3 = skip_ws(s, p2 + 1);
            lemma_skip_ws_bounds(s, p2 + 1);
            lemma_read_string_progress(s, p3);
            if let Some((v, p4)) = read_string(s, p3) {
                lemma_skip_ws_bounds(s, p4);
                let p5 = skip_ws(s, p4);
                if 0 <= p5 < s.len() && s[p5] == 44 {
                    lemma_skip_ws_bounds(s, p5 + 1);
                    let st2 = if key == key_type() {
                        ValueSlots { kind: Some(v), ..st }
                    } else {
                        ValueSlots { data: Some(v), ..st }
                    };
                    lemma_value_members_progress(s, skip_ws(s, p5 + 1), st2);
                }
            }
        }
    }
}

/// Reads the members of the envelope from `p` (at a member name) up to and
/// past its closing brace.
#[verifier::opaque]
pub open spec fn env_members(s: Seq<u8>, p: int, st: EnvSlots) -> Option<(EnvSlots, int)>
    decreases s.len() - p,
{
    match read_string(s, p) {
        None => None,
        Some((key, p1)) => {
            let p2 = skip_ws(s, p1);
            if !(0 <= p2 < s.len() && s[p2] == 58) {
                None
            } else {
                let p3 = skip_ws(s, p2 + 1);
                match env_field(s, p3, key, st) {
                    None => None,
                    Some((st2, p4)) => {
                        let p5 = skip_ws(s, p4);
                        if 0 <= p5 < s.len() && s[p5] == 44 {
                            proof {
                                lemma_read_string_progress(s, p);
                                lemma_skip_ws_bounds(s, p1);
                                lemma_skip_ws_bounds(s, p2 + 1);
                                lemma_field_progress(s, p3, key, st);
                                lemma_skip_ws_bounds(s, p4);
                                lemma_skip_ws_bounds(s, p5 + 1);
                            }
                            env_members(s, skip_ws(s, p5 + 1), st2)
                        } else if 0 <= p5 < s.len() && s[p5] == 125 {
                            Some((st2, p5 + 1))
                        } else {
                            None
                        }
                    },
                }
            }
        },
    }
}

/// The envelope members, where the text is a JSON object holding `v`,
/// `is_json` and `value` (and perhaps `ttl_ms`), with nothing after it but
/// whitespace.
pub open spec fn parse_envelope(s: Seq<u8>) -> Option<EnvSlots> {
    let empty = EnvSlots { v: None, is_json: None, ttl: None, value: None };
    let p0 = skip_ws(s, 0);
    if !(0 <= p0 < s.len() && s[p0] == 123) {
        None
    } else {
        let q = skip_ws(s, p0 + 1);
        let res = if 0 <= q < s.len() && s[q] == 125 {
            Some((empty, q + 1))
        } else {
            env_members(s, q, empty)
        };
        match res {
            None => None,
            Some((st, r)) => if skip_ws(s, r) != s.len() {
                None
            } else if st.v is None || st.is_json is None || st.value is None {
                None
            } else {
                Some(st)
            },
        }
    }
}

/// The bytes that lower-case or upper-case hexadecimal digits stand for.
pub open spec fn unhex(d: Seq<u8>) -> Option<Seq<u8>> {
    if d.len() % 2 != 0 || !(forall|i: int| 0 <= i < d.len() ==> (#[trigger] hex_val(d[i])) is Some) {
        None
    } else {
        Some(
            Seq::new(
                d.len() / 2,
                |i: int| (hex_val(d[2 * i])->0 * 16 + hex_val(d[2 * i + 1])->0) as u8,
            ),
        )
    }
}

/// The value a `value` object stands for.
pub open spec fn slots_value(vs: ValueSlots) -> Option<WireValueView> {
    match vs.kind {
        None => None,
        Some(k) => if k == type_none() {
            if vs.data is None {
                Some(WireValueView::Null)
            } else {
                None
            }
        } else {
            match vs.data {
                None => None,
                Some(d) => if k == type_bytes() {
                    match unhex(d) {
                        Some(b) => Some(WireValueView::Bytes(b)),
                        None => None,
                    }
                } else if k == type_str() {
                    if valid_utf8(d) {
                        Some(WireValueView::Str(decode_utf8(d)))
                    } else {
                        None
                    }
                } else if k == type_json() {
                    if valid_utf8(d) {
                        Some(WireValueView::Json(decode_utf8(d)))
                    } else {
                        None
                    }
                } else {
                    None
                },
            }
        },
    }
}

/// Why a dump payload was refused.
pub enum DumpError {
    NotBytes,
    BadMagic,
    Malformed,
    Version(nat),
    BadValue,
    Json(Seq<char>),
}

/// The text that reports a refused dump payload.
pub open spec fn dump_error_text(e: DumpError) -> Seq<char> {
    match e {
        DumpError::NotBytes => "io error: dump payload must be bytes or str"@,
        DumpError::BadMagic => "io error: invalid dump payload magic"@,
        DumpError::Malformed => "json error: malformed dump envelope"@,
        DumpError::Version(v) => "io error: unsupported dump format version: "@ + nat_text(v),
        DumpError::BadValue => "json error: malformed dump value"@,
        DumpError::Json(m) => "json error: "@ + m,
    }
}

/// The value a `value` member stands for, where it is one.
pub open spec fn slots_of_member(m: Option<ValueSlots>) -> Option<WireValueView> {
    match m {
        Some(vs) => slots_value(vs),
        None => None,
    }
}

/// The entry the body of a dump payload (what follows its magic bytes)
/// stands for, loaded at time `now`.
pub open spec fn decode_body(body: Seq<u8>, now: int) -> Result<ItemView, DumpError> {
    match parse_envelope(body) {
        None => Err(DumpError::Malformed),
        Some(st) => if st.v->0 != 1 {
            Err(DumpError::Version(st.v->0))
        } else {
            match slots_of_member(st.value->0) {
                None => Err(DumpError::BadValue),
                Some(v) => Ok(
                    ItemView {
                        value: v,
                        expires_at: match st.ttl {
                            Some(Some(ms)) => Some(now + ms * 1000000),
                            _ => None,
                        },
                        is_json: st.is_json->0,
                    },
                ),
            }
        },
    }
}

/// The entry a dump payload stands for, loaded at time `now`. A body that
/// is refused and that `serde_json` does not read as JSON at all is
/// reported with `serde_json`'s own message.
pub open spec fn spec_decode_dump(payload: WireValueView, now: int) -> Result<ItemView, DumpError> {
    match value_bytes(payload) {
        None => Err(DumpError::NotBytes),
        Some(raw) => if raw.len() < 4 || raw.subrange(0, 4) != dump_magic() {
            Err(DumpError::BadMagic)
        } else {
            let body = raw.subrange(4, raw.len() as int);
            match decode_body(body, now) {
                Ok(it) => Ok(it),
                Err(e) => if json_compact_bytes(body) is None {
                    Err(DumpError::Json(json_bytes_error(body)))
                } else {
                    Err(e)
                },
            }
        },
    }
}

// ---------------------------------------------------------------------------
// Reading, executable
// ---------------------------------------------------------------------------

/// The model of an optional read of bytes.
pub open spec fn bytes_read(r: Option<(Vec<u8>, usize)>) -> Option<(Seq<u8>, int)> {
    match r {
        Some((b, q)) => Some((b@, q as int)),
        None => None,
    }
}

/// Bytes read so far, put in front of what the rest of a read gives.
pub open spec fn prefixed(acc: Seq<u8>, r: Option<(Seq<u8>, int)>) -> Option<(Seq<u8>, int)> {
    match r {
        Some((b, t)) => Some((acc + b, t)),
        None => None,
    }
}

fn skip_ws_x(s: &[u8], p: usize) -> (r: usize)
    requires
        p <= s@.len(),
    ensures
        r == skip_ws(s@, p as int),
        p <= r <= s@.len(),
{
    let mut q = p;
    while q < s.len() && (s[q] == 32 || s[q] == 9 || s[q] == 10 || s[q] == 13)
        invariant
            p <= q <= s@.len(),
            skip_ws(s@, p as int) == skip_ws(s@, q as int),
        decreases s@.len() - q,
    {
        q = q + 1;
    }
    q
}

fn hex_val_x(c: u8) -> (r: Option<u32>)
    ensures
        match hex_val(c) {
            Some(v) => r == Some(v as u32),
            None => r is None,
        },
{
    if 48 <= c && c <= 57 {
        Some((c - 48) as u32)
    } else if 97 <= c && c <= 102 {
        Some((c - 87) as u32)
    } else if 65 <= c && c <= 70 {
        Some((c - 55) as u32)
    } else {
        None
    }
}

fn hex4_x(s: &[u8], p: usize) -> (r: Option<u32>)
    ensures
        match hex4(s@, p as int) {
            Some(v) => r == Some(v as u32) && v < 65536,
            None => r is None,
        },
{
    if p > s.len() || s.len() - p < 4 {
        return None;
    }
    let a = match hex_val_x(s[p]) {
        Some(v) => v,
        None => return None,
    };
    let b = match hex_val_x(s[p + 1]) {
        Some(v) => v,
        None => return None,
    };
    let c = match hex_val_x(s[p + 2]) {
        Some(v) => v,
        None => return None,
    };
    let d = match hex_val_x(s[p + 3]) {
        Some(v) => v,
        None => return None,
    };
    Some(((a * 16 + b) * 16 + c) * 16 + d)
}

fn push_scalar(out: &mut Vec<u8>, c: u32)
    requires
        c < 0x110000,
    ensures
        final(out)@ == old(out)@ + utf8_of_scalar(c as nat),
{
    if c < 0x80 {
        out.push(c as u8);
    } else if c < 0x800 {
        out.push((0xC0 + c / 64) as u8);
        out.push((0x80 + c % 64) as u8);
    } else if c < 0x10000 {
        out.push((0xE0 + c / 4096) as u8);
        out.push((0x80 + (c / 64) % 64) as u8);
        out.push((0x80 + c % 64) as u8);
    } else {
        out.push((0xF0 + c / 262144) as u8);
        out.push((0x80 + (c / 4096) % 64) as u8);
        out.push((0x80 + (c / 64) % 64) as u8);
        out.push((0x80 + c % 64) as u8);
    }
    assert(final(out)@ =~= old(out)@ + utf8_of_scalar(c as nat));
}

fn read_escape_x(s: &[u8], p: usize) -> (r: Option<(Vec<u8>, usize)>)
    requires
        p < s@.len(),
    ensures
        bytes_read(r) == read_escape(s@, p as int),
        r matches Some((b, q)) ==> p < q <= s@.len(),
{
    if s.len() - p < 2 {
        return None;
    }
    let e = s[p + 1];
    let mut out: Vec<u8> = Vec::new();
    let single: u8 = if e == 34 {
        34
    } else if e == 92 {
        92
    } else if e == 47 {
        47
    } else if e == 98 {
        8
    } else if e == 102 {
        12
    } else if e == 110 {
        10
    } else if e == 114 {
        13
    } else if e == 116 {
        9
    } else {
        0
    };
    if single != 0 {
        out.push(single);
        assert(out@ =~= read_escape(s@, p as int)->Some_0.0);
        return Some((out, p + 2));
    }
    if e != 117 {
        return None;
    }
    let u = match hex4_x(s, p + 2) {
        Some(u) => u,
        None => return None,
    };
    if 0xD800 <= u && u < 0xDC00 {
        if s.len() - p > 7 && s[p + 6] == 92 && s[p + 7] == 117 {
            match hex4_x(s, p + 8) {
                Some(w) => {
                    if 0xDC00 <= w && w < 0xE000 {
                        push_scalar(&mut out, 0x10000 + (u - 0xD800) * 0x400 + (w - 0xDC00));
                        assert(out@ =~= read_escape(s@, p as int)->Some_0.0);
                        Some((out, p + 12))
                    } else {
                        None
                    }
                },
                None => None,
            }
        } else {
            None
        }
    } else if 0xDC00 <= u && u < 0xE000 {
        None
    } else {
        push_scalar(&mut out, u);
        assert(out@ =~= read_escape(s@, p as int)->Some_0.0);
        Some((out, p + 6))
    }
}

fn extend(out: &mut Vec<u8>, b: &[u8])
    ensures
        final(out)@ == old(out)@ + b@,
{
    push_all(out, b);
}

fn read_string_x(s: &[u8], p: usize) -> (r: Option<(Vec<u8>, usize)>)
    requires
        p <= s@.len(),
    ensures
        bytes_read(r) == read_string(s@, p as int),
        r matches Some((b, q)) ==> p < q <= s@.len(),
{
    if !(p < s.len() && s[p] == 34) {
        return None;
    }
    let mut out: Vec<u8> = Vec::new();
    let mut q = p + 1;
    assert(Seq::<u8>::empty() + Seq::<u8>::empty() =~= Seq::<u8>::empty());
    proof {
        match read_str_body(s@, q as int) {
            Some((b, t)) => {
                assert(Seq::<u8>::empty() + b =~= b);
            },
            None => {},
        }
    }
    while q < s.len()
        invariant
            p < q <= s@.len(),
            s@[p as int] == 34,
            read_str_body(s@, p + 1) == prefixed(out@, read_str_body(s@, q as int)),
        decreases s@.len() - q,
    {
        let b = s[q];
        if b == 34 {
            assert(read_str_body(s@, q as int) == Some((Seq::<u8>::empty(), q + 1)));
            assert(out@ + Seq::<u8>::empty() =~= out@);
            return Some((out, q + 1));
        }
        if b < 32 {
            return None;
        }
        if b == 92 {
            match read_escape_x(s, q) {
                None => return None,
                Some((bytes, q2)) => {
                    let ghost before = out@;
                    extend(&mut out, bytes.as_slice());
                    proof {
                        match read_str_body(s@, q2 as int) {
                            Some((r, t)) => {
                                assert(before + (bytes@ + r) =~= out@ + r);
                            },
                            None => {},
                        }
                    }
                    q = q2;
                },
            }
        } else {
            let ghost before = out@;
            out.push(b);
            proof {
                match read_str_body(s@, q + 1) {
                    Some((r, t)) => {
                        assert(before + (seq![b] + r) =~= out@ + r);
                    },
                    None => {},
                }
            }
            q = q + 1;
        }
    }
    None
}

fn read_uint_x(s: &[u8], p: usize, max: u64) -> (r: Option<(u64, usize)>)
    requires
        p <= s@.len(),
    ensures
        match read_uint(s@, p as int, max as nat) {
            Some((n, q)) => r matches Some((x, y)) && x == n && y == q,
            None => r is None,
        },
        r matches Some((n, q)) ==> p < q <= s@.len(),
{
    if p >= s.len() {
        return None;
    }
    if s[p] == 48 {
        return Some((0, p + 1));
    }
    if !(49 <= s[p] && s[p] <= 57) {
        return None;
    }
    let cap: u128 = max as u128 + 1;
    let mut acc: u128 = 0;
    let mut q = p;
    assert(s@.subrange(p as int, p as int) =~= Seq::<u8>::empty());
    while q < s.len() && 48 <= s[q] && s[q] <= 57
        invariant
            p <= q <= s@.len(),
            cap == max + 1,
            digit_end(s@, p as int) == digit_end(s@, q as int),
            acc == crate::ttl::capped(dec_value(s@.subrange(p as int, q as int)), cap as nat),
        decreases s@.len() - q,
    {
        let ghost before = dec_value(s@.subrange(p as int, q as int));
        let d = (s[q] - 48) as u128;
        assert(s@.subrange(p as int, q + 1).drop_last() =~= s@.subrange(p as int, q as int));
        if acc >= cap {
            assert(before * 10 + d >= cap) by (nonlinear_arith)
                requires
                    before >= cap,
                    d >= 0,
            ;
        } else {
            let next = acc * 10 + d;
            if next >= cap {
                acc = cap;
            } else {
                acc = next;
            }
        }
        q = q + 1;
    }
    if acc > max as u128 {
        return None;
    }
    Some((acc as u64, q))
}

fn at_x(s: &[u8], p: usize, lit: &[u8]) -> (r: bool)
    ensures
        r == at(s@, p as int, lit@),
        r ==> p + lit@.len() <= s.len(),
{
    if p > s.len() || s.len() - p < lit.len() {
        return false;
    }
    let n = s.len();
    let mut i: usize = 0;
    while i < lit.len()
        invariant
            i <= lit@.len(),
            n == s@.len(),
            p + lit@.len() <= n,
            forall|j: int| 0 <= j < i ==> s@[p + j] == lit@[j],
        decreases lit@.len() - i,
    {
        if s[p + i] != lit[i] {
            assert(s@.subrange(p as int, p + lit@.len())[i as int] != lit@[i as int]);
            return false;
        }
        i = i + 1;
    }
    assert(s@.subrange(p as int, p + lit@.len()) =~= lit@);
    true
}

/// The model of an optional position.
pub open spec fn opt_pos(r: Option<usize>) -> Option<int> {
    match r {
        Some(q) => Some(q as int),
        None => None,
    }
}

fn digit_end_x(s: &[u8], p: usize) -> (r: usize)
    requires
        p <= s@.len(),
    ensures
        r == digit_end(s@, p as int),
        p <= r <= s@.len(),
{
    let mut q = p;
    while q < s.len() && 48 <= s[q] && s[q] <= 57
        invariant
            p <= q <= s@.len(),
            digit_end(s@, p as int) == digit_end(s@, q as int),
        decreases s@.len() - q,
    {
        q = q + 1;
    }
    q
}

fn some_digits_x(s: &[u8], p: usize) -> (r: Option<usize>)
    requires
        p <= s@.len(),
    ensures
        opt_pos(r) == some_digits(s@, p as int),
        r matches Some(q) ==> q <= s@.len(),
{
    let e = digit_end_x(s, p);
    if e == p {
        None
    } else {
        Some(e)
    }
}

fn skip_str_body_x(s: &[u8], p: usize) -> (r: Option<usize>)
    requires
        p <= s@.len(),
    ensures
        opt_pos(r) == skip_str_body(s@, p as int),
{
    let mut q = p;
    while q < s.len()
        invariant
            p <= q <= s@.len(),
            skip_str_body(s@, p as int) == skip_str_body(s@, q as int),
        decreases s@.len() - q,
    {
        let c = s[q];
        if c == 34 {
            return Some(q + 1);
        }
        if c < 32 {
            return None;
        }
        if c == 92 {
            if q + 1 >= s.len() {
                return None;
            }
            let e = s[q + 1];
            if e == 34 || e == 92 || e == 47 || e == 98 || e == 102 || e == 110 || e == 114 || e == 116 {
                if q + 2 > s.len() {
                    return None;
                }
                q = q + 2;
            } else if e == 117 {
                match hex4_x(s, q + 2) {
                    Some(_) => {
                        q = q + 6;
                    },
                    None => return None,
                }
            } else {
                return None;
            }
        } else {
            q = q + 1;
        }
    }
    None
}

fn skip_number_tail_x(s: &[u8], e: usize) -> (r: Option<usize>)
    requires
        e <= s@.len(),
    ensures
        opt_pos(r) == skip_number_tail(s@, e as int),
{
    let f = if e < s.len() && s[e] == 46 {
        some_digits_x(s, e + 1)
    } else {
        Some(e)
    };
    match f {
        None => None,
        Some(f) => if f < s.len() && (s[f] == 101 || s[f] == 69) {
            let g = if f + 1 < s.len() && (s[f + 1] == 43 || s[f + 1] == 45) {
                f + 2
            } else {
                f + 1
            };
            some_digits_x(s, g)
        } else {
            Some(f)
        },
    }
}

fn skip_number_x(s: &[u8], p: usize) -> (r: Option<usize>)
    requires
        p <= s@.len(),
    ensures
        opt_pos(r) == skip_number(s@, p as int),
{
    let p1 = if p < s.len() && s[p] == 45 {
        p + 1
    } else {
        p
    };
    if p1 >= s.len() {
        None
    } else if s[p1] == 48 {
        if p1 + 1 < s.len() && 48 <= s[p1 + 1] && s[p1 + 1] <= 57 {
            None
        } else {
            skip_number_tail_x(s, p1 + 1)
        }
    } else if 49 <= s[p1] && s[p1] <= 57 {
        let e = digit_end_x(s, p1);
        skip_number_tail_x(s, e)
    } else {
        None
    }
}

fn skip_value_x(s: &[u8], p: usize) -> (r: Option<usize>)
    requires
        p <= s@.len(),
    ensures
        opt_pos(r) == skip_value(s@, p as int),
    decreases s@.len() - p, 0int,
{
    proof {
        reveal(skip_value);
        reveal(skip_elems);
        reveal(skip_members);
    }
    if p >= s.len() {
        return None;
    }
    let c = s[p];
    if c == 110 {
        if at_x(s, p, &[110, 117, 108, 108]) {
            Some(p + 4)
        } else {
            None
        }
    } else if c == 116 {
        if at_x(s, p, &[116, 114, 117, 101]) {
            Some(p + 4)
        } else {
            None
        }
    } else if c == 102 {
        if at_x(s, p, &[102, 97, 108, 115, 101]) {
            Some(p + 5)
        } else {
            None
        }
    } else if c == 45 || (48 <= c && c <= 57) {
        skip_number_x(s, p)
    } else if c == 34 {
        skip_str_body_x(s, p + 1)
    } else if c == 91 {
        let q = skip_ws_x(s, p + 1);
        if q < s.len() && s[q] == 93 {
            Some(q + 1)
        } else {
            skip_elems_x(s, q)
        }
    } else if c == 123 {
        let q = skip_ws_x(s, p + 1);
        if q < s.len() && s[q] == 125 {
            Some(q + 1)
        } else {
            skip_members_x(s, q)
        }
    } else {
        None
    }
}

fn skip_elems_x(s: &[u8], p: usize) -> (r: Option<usize>)
    requires
        p <= s@.len(),
    ensures
        opt_pos(r) == skip_elems(s@, p as int),
    decreases s@.len() - p, 1int,
{
    proof {
        reveal(skip_value);
        reveal(skip_elems);
        reveal(skip_members);
    }
    let v = match skip_value_x(s, p) {
        Some(v) => v,
        None => return None,
    };
    if !(p < v && v <= s.len()) {
        return None;
    }
    let q = skip_ws_x(s, v);
    if q < s.len() && s[q] == 44 {
        let n = skip_ws_x(s, q + 1);
        skip_elems_x(s, n)
    } else if q < s.len() && s[q] == 93 {
        Some(q + 1)
    } else {
        None
    }
}

fn skip_members_x(s: &[u8], p: usize) -> (r: Option<usize>)
    requires
        p <= s@.len(),
    ensures
        opt_pos(r) == skip_members(s@, p as int),
    decreases s@.len() - p, 1int,
{
    proof {
        reveal(skip_value);
        reveal(skip_elems);
        reveal(skip_members);
    }
    if !(p < s.len() && s[p] == 34) {
        return None;
    }
    let k = match skip_str_body_x(s, p + 1) {
        Some(k) => k,
        None => return None,
    };
    proof {
        lemma_skip_str_progress(s@, p + 1);
    }
    let q1 = skip_ws_x(s, k);
    if !(q1 < s.len() && s[q1] == 58) {
        return None;
    }
    let q2 = skip_ws_x(s, q1 + 1);
    let v = match skip_value_x(s, q2) {
        Some(v) => v,
        None => return None,
    };
    if !(q2 < v && v <= s.len()) {
        return None;
    }
    let q3 = skip_ws_x(s, v);
    if q3 < s.len() && s[q3] == 44 {
        let n = skip_ws_x(s, q3 + 1);
        skip_members_x(s, n)
    } else if q3 < s.len() && s[q3] == 125 {
        Some(q3 + 1)
    } else {
        None
    }
}

fn bytes_eq(a: &[u8], b: &[u8]) -> (r: bool)
    ensures
        r == (a@ == b@),
{
    if a.len() != b.len() {
        return false;
    }
    let r = at_x(a, 0, b);
    assert(a@.subrange(0, b@.len() as int) =~= a@);
    r
}

/// The members of a `value` object read so far.
pub struct ValueSlotsX {
    pub kind: Option<Vec<u8>>,
    pub data: Option<Vec<u8>>,
}

pub open spec fn opt_bytes(o: Option<Vec<u8>>) -> Option<Seq<u8>> {
    match o {
        Some(b) => Some(b@),
        None => None,
    }
}

impl View for ValueSlotsX {
    type V = ValueSlots;

    open spec fn view(&self) -> ValueSlots {
        ValueSlots { kind: opt_bytes(self.kind), data: opt_bytes(self.data) }
    }
}

fn value_members_x(s: &[u8], p: usize) -> (r: Option<(ValueSlotsX, usize)>)
    requires
        p <= s@.len(),
    ensures
        match value_members(s@, p as int, ValueSlots { kind: None, data: None }) {
            Some((st, q)) => r matches Some((x, y)) && x@ == st && y == q,
            None => r is None,
        },
{
    reveal(value_members);
    let mut st = ValueSlotsX { kind: None, data: None };
    let mut q = p;
    loop
        invariant
            q <= s@.len(),
            value_members(s@, p as int, ValueSlots { kind: None, data: None }) == value_members(
                s@,
                q as int,
                st@,
            ),
        decreases s@.len() - q,
    {
        proof {
            reveal(value_members);
            reveal(env_members);
        }
        let (key, p1) = match read_string_x(s, q) {
            Some(x) => x,
            None => return None,
        };
        let p2 = skip_ws_x(s, p1);
        if !(p2 < s.len() && s[p2] == 58) {
            return None;
        }
        let p3 = skip_ws_x(s, p2 + 1);
        let ghost old_st = st@;
        let p4;
        if bytes_eq(key.as_slice(), &[116, 121, 112, 101]) && st.kind.is_none() {
            match read_string_x(s, p3) {
                Some((v, t)) => {
                    st.kind = Some(v);
                    p4 = t;
                },
                None => return None,
            }
        } else if bytes_eq(key.as_slice(), &[100, 97, 116, 97]) && st.data.is_none() {
            match read_string_x(s, p3) {
                Some((v, t)) => {
                    st.data = Some(v);
                    p4 = t;
                },
                None => return None,
            }
        } else {
            return None;
        }
        let p5 = skip_ws_x(s, p4);
        if p5 < s.len() && s[p5] == 44 {
            let next = skip_ws_x(s, p5 + 1);
            assert(value_members(s@, q as int, old_st) == value_members(s@, next as int, st@));
            q = next;
        } else if p5 < s.len() && s[p5] == 125 {
            return Some((st, p5 + 1));
        } else {
            return None;
        }
    }
}

fn read_value_object_x(s: &[u8], p: usize) -> (r: Option<(ValueSlotsX, usize)>)
    requires
        p <= s@.len(),
    ensures
        match read_value_object(s@, p as int) {
            Some((st, q)) => r matches Some((x, y)) && x@ == st && y == q,
            None => r is None,
        },
        r matches Some((x, y)) ==> p < y <= s@.len(),
{
    if !(p < s.len() && s[p] == 123) {
        return None;
    }
    let q = skip_ws_x(s, p + 1);
    if q < s.len() && s[q] == 125 {
        return Some((ValueSlotsX { kind: None, data: None }, q + 1));
    }
    proof {
        lemma_value_members_progress(s@, q as int, ValueSlots { kind: None, data: None });
    }
    value_members_x(s, q)
}

/// The members of the envelope read so far.
pub struct EnvSlotsX {
    pub v: Option<u64>,
    pub is_json: Option<bool>,
    pub ttl: Option<Option<u64>>,
    pub value: Option<Option<ValueSlotsX>>,
}

impl View for EnvSlotsX {
    type V = EnvSlots;

    open spec fn view(&self) -> EnvSlots {
        EnvSlots {
            v: match self.v {
                Some(n) => Some(n as nat),
                None => None,
            },
            is_json: self.is_json,
            ttl: match self.ttl {
                Some(Some(n)) => Some(Some(n as nat)),
                Some(None) => Some(None),
                None => None,
            },
            value: match self.value {
                Some(Some(vs)) => Some(Some(vs@)),
                Some(None) => Some(None),
                None => None,
            },
        }
    }
}

fn env_field_x(s: &[u8], p: usize, key: &[u8], st: EnvSlotsX) -> (r: Option<(EnvSlotsX, usize)>)
    requires
        p <= s@.len(),
    ensures
        match env_field(s@, p as int, key@, st@) {
            Some((st2, q)) => r matches Some((x, y)) && x@ == st2 && y == q,
            None => r is None,
        },
{
    let mut st = st;
    let kv: &[u8] = &[118];
    let kj: &[u8] = &[105, 115, 95, 106, 115, 111, 110];
    let kt: &[u8] = &[116, 116, 108, 95, 109, 115];
    let kl: &[u8] = &[118, 97, 108, 117, 101];
    assert(kv@ =~= key_v());
    assert(kj@ =~= key_is_json());
    assert(kt@ =~= key_ttl_ms());
    assert(kl@ =~= key_value());
    if bytes_eq(key, kv) && st.v.is_none() {
        match read_uint_x(s, p, 255) {
            Some((n, q)) => {
                st.v = Some(n);
                Some((st, q))
            },
            None => None,
        }
    } else if bytes_eq(key, kj) && st.is_json.is_none() {
        if at_x(s, p, &[116, 114, 117, 101]) {
            st.is_json = Some(true);
            Some((st, p + 4))
        } else if at_x(s, p, &[102, 97, 108, 115, 101]) {
            st.is_json = Some(false);
            Some((st, p + 5))
        } else {
            None
        }
    } else if bytes_eq(key, kt) && st.ttl.is_none() {
        if at_x(s, p, &[110, 117, 108, 108]) {
            st.ttl = Some(None);
            Some((st, p + 4))
        } else {
            match read_uint_x(s, p, u64::MAX) {
                Some((n, q)) => {
                    st.ttl = Some(Some(n));
                    Some((st, q))
                },
                None => None,
            }
        }
    } else if bytes_eq(key, kl) && st.value.is_none() {
        match read_value_object_x(s, p) {
            Some((vs, q)) => {
                st.value = Some(Some(vs));
                Some((st, q))
            },
            None => match skip_value_x(s, p) {
                Some(q) => {
                    st.value = Some(None);
                    Some((st, q))
                },
                None => None,
            },
        }
    } else if bytes_eq(key, kv) || bytes_eq(key, kj) || bytes_eq(key, kt) || bytes_eq(key, kl) {
        None
    } else {
        let name_is_utf8 = match string_from_utf8(vstd::slice::slice_to_vec(key)) {
            Ok(_) => true,
            Err(_) => false,
        };
        proof {
            reveal(skip_unknown);
        }
        if !name_is_utf8 {
            return None;
        }
        match skip_value_x(s, p) {
            Some(q) => Some((st, q)),
            None => None,
        }
    }
}

fn env_members_x(s: &[u8], p: usize) -> (r: Option<(EnvSlotsX, usize)>)
    requires
        p <= s@.len(),
    ensures
        match env_members(s@, p as int, EnvSlots { v: None, is_json: None, ttl: None, value: None }) {
            Some((st, q)) => r matches Some((x, y)) && x@ == st && y == q,
            None => r is None,
        },
{
    reveal(env_members);
    let mut st = EnvSlotsX { v: None, is_json: None, ttl: None, value: None };
    let mut q = p;
    loop
        invariant
            q <= s@.len(),
            env_members(s@, p as int, EnvSlots { v: None, is_json: None, ttl: None, value: None })
                == env_members(s@, q as int, st@),
        decreases s@.len() - q,
    {
        proof {
            reveal(value_members);
            reveal(env_members);
        }
        let (key, p1) = match read_string_x(s, q) {
            Some(x) => x,
            None => return None,
        };
        let p2 = skip_ws_x(s, p1);
        if !(p2 < s.len() && s[p2] == 58) {
            return None;
        }
        let p3 = skip_ws_x(s, p2 + 1);
        let ghost old_st = st@;
        proof {
            lemma_field_progress(s@, p3 as int, key@, old_st);
        }
        let (st2, p4) = match env_field_x(s, p3, key.as_slice(), st) {
            Some(x) => x,
            None => return None,
        };
        st = st2;
        let p5 = skip_ws_x(s, p4);
        if p5 < s.len() && s[p5] == 44 {
            let next = skip_ws_x(s, p5 + 1);
            assert(env_members(s@, q as int, old_st) == env_members(s@, next as int, st@));
            q = next;
        } else if p5 < s.len() && s[p5] == 125 {
            return Some((st, p5 + 1));
        } else {
            return None;
        }
    }
}

fn parse_envelope_x(s: &[u8]) -> (r: Option<EnvSlotsX>)
    ensures
        match parse_envelope(s@) {
            Some(st) => r matches Some(x) && x@ == st,
            None => r is None,
        },
{
    let p0 = skip_ws_x(s, 0);
    if !(p0 < s.len() && s[p0] == 123) {
        return None;
    }
    let q = skip_ws_x(s, p0 + 1);
    let res = if q < s.len() && s[q] == 125 {
        Some((EnvSlotsX { v: None, is_json: None, ttl: None, value: None }, q + 1))
    } else {
        proof {
            lemma_env_members_progress(s@, q as int, EnvSlots { v: None, is_json: None, ttl: None, value: None });
        }
        env_members_x(s, q)
    };
    match res {
        None => None,
        Some((st, r)) => {
            proof {
                lemma_env_members_progress(s@, q as int, EnvSlots { v: None, is_json: None, ttl: None, value: None });
            }
            if skip_ws_x(s, r) != s.len() {
                None
            } else if st.v.is_none() || st.is_json.is_none() || st.value.is_none() {
                None
            } else {
                Some(st)
            }
        },
    }
}

pub proof fn lemma_env_members_progress(s: Seq<u8>, p: int, st: EnvSlots)
    ensures
        env_members(s, p, st) matches Some((st2, q)) ==> p < q <= s.len(),
    decreases s.len() - p,
{
    reveal(env_members);
    if let Some((key, p1)) = read_string(s, p) {
        lemma_read_string_progress(s, p);
        lemma_skip_ws_bounds(s, p1);
        let p2 = skip_ws(s, p1);
        if 0 <= p2 < s.len() && s[p2] == 58 {
            let p3 = skip_ws(s, p2 + 1);
            lemma_skip_ws_bounds(s, p2 + 1);
            lemma_field_progress(s, p3, key, st);
            if let Some((st2, p4)) = env_field(s, p3, key, st) {
                lemma_skip_ws_bounds(s, p4);
                let p5 = skip_ws(s, p4);
                if 0 <= p5 < s.len() && s[p5] == 44 {
                    lemma_skip_ws_bounds(s, p5 + 1);
                    lemma_env_members_progress(s, skip_ws(s, p5 + 1), st2);
                }
            }
        }
    }
}

fn unhex_x(d: &[u8]) -> (r: Option<Vec<u8>>)
    ensures
        match unhex(d@) {
            Some(b) => r matches Some(x) && x@ == b,
            None => r is None,
        },
{
    if d.len() % 2 != 0 {
        return None;
    }
    let mut out: Vec<u8> = Vec::new();
    let mut i: usize = 0;
    let ghost want = Seq::new(
        d@.len() / 2,
        |i: int| (hex_val(d@[2 * i])->0 * 16 + hex_val(d@[2 * i + 1])->0) as u8,
    );
    while i < d.len() / 2
        invariant
            d@.len() % 2 == 0,
            i <= d@.len() / 2,
            forall|j: int| 0 <= j < 2 * i ==> (#[trigger] hex_val(d@[j])) is Some,
            out@ == want.subrange(0, i as int),
            want == Seq::new(
                d@.len() / 2,
                |i: int| (hex_val(d@[2 * i])->0 * 16 + hex_val(d@[2 * i + 1])->0) as u8,
            ),
        decreases d@.len() / 2 - i,
    {
        let hi = match hex_val_x(d[2 * i]) {
            Some(v) => v,
            None => {
                assert(hex_val(d@[2 * i]) is None);
                return None;
            },
        };
        let lo = match hex_val_x(d[2 * i + 1]) {
            Some(v) => v,
            None => {
                assert(hex_val(d@[2 * i + 1]) is None);
                return None;
            },
        };
        out.push((hi * 16 + lo) as u8);
        assert(out@ =~= want.subrange(0, i + 1));
        i = i + 1;
    }
    assert(want.subrange(0, want.len() as int) =~= want);
    Some(out)
}

fn slots_value_x(vs: ValueSlotsX) -> (r: Option<WireValue>)
    ensures
        match slots_value(vs@) {
            Some(v) => r matches Some(x) && x@ == v,
            None => r is None,
        },
{
    let kind = match vs.kind {
        Some(k) => k,
        None => return None,
    };
    if bytes_eq(kind.as_slice(), &[110, 111, 110, 101]) {
        return if vs.data.is_none() {
            Some(WireValue::Null)
        } else {
            None
        };
    }
    let data = match vs.data {
        Some(d) => d,
        None => return None,
    };
    if bytes_eq(kind.as_slice(), &[98, 121, 116, 101, 115]) {
        match unhex_x(data.as_slice()) {
            Some(b) => Some(WireValue::Bytes(b)),
            None => None,
        }
    } else if bytes_eq(kind.as_slice(), &[115, 116, 114]) {
        match string_from_utf8(data) {
            Ok(t) => Some(WireValue::Str(t)),
            Err(_) => None,
        }
    } else if bytes_eq(kind.as_slice(), &[106, 115, 111, 110]) {
        match string_from_utf8(data) {
            Ok(t) => Some(WireValue::Json(t)),
            Err(_) => None,
        }
    } else {
        None
    }
}

fn decode_body_x(body: &[u8], now: u64) -> (r: Result<StoredValue, String>)
    ensures
        match decode_body(body@, now as int) {
            Ok(it) => r matches Ok(x) && x@ == it,
            Err(e) => r matches Err(m) && m@ == dump_error_text(e),
        },
{
    let st = match parse_envelope_x(body) {
        Some(st) => st,
        None => return Err(owned("json error: malformed dump envelope")),
    };
    let v = match st.v {
        Some(v) => v,
        None => return Err(owned("json error: malformed dump envelope")),
    };
    if v != 1 {
        let mut m = owned("io error: unsupported dump format version: ");
        let digits = u64_text(v);
        append(&mut m, digits.as_str());
        return Err(m);
    }
    let is_json = match st.is_json {
        Some(b) => b,
        None => return Err(owned("json error: malformed dump envelope")),
    };
    let ttl = st.ttl;
    let vs = match st.value {
        Some(Some(vs)) => vs,
        Some(None) => return Err(owned("json error: malformed dump value")),
        None => return Err(owned("json error: malformed dump envelope")),
    };
    let decoded = match slots_value_x(vs) {
        Some(d) => d,
        None => return Err(owned("json error: malformed dump value")),
    };
    let expires_at: Option<u128> = match ttl {
        Some(Some(ms)) => Some(now as u128 + (ms as u128) * 1000000),
        _ => None,
    };
    Ok(StoredValue { value: decoded, expires_at, is_json })
}

/// Reads a dump payload into an entry, as `LOAD` does at time `now`; on
/// failure, the text that reports why.
pub fn decode_dump_payload(value: &WireValue, now: u64) -> (r: Result<StoredValue, String>)
    ensures
        match spec_decode_dump(value@, now as int) {
            Ok(it) => r matches Ok(x) && x@ == it,
            Err(e) => r matches Err(m) && m@ == dump_error_text(e),
        },
{
    let raw = match value.to_bytes() {
        Some(b) => b,
        None => return Err(owned("io error: dump payload must be bytes or str")),
    };
    if raw.len() < 4 || !(raw[0] == 73 && raw[1] == 88 && raw[2] == 50 && raw[3] == 68) {
        proof {
            if raw@.len() >= 4 && raw@.subrange(0, 4) == dump_magic() {
                assert(raw@[0] == raw@.subrange(0, 4)[0]);
                assert(raw@[1] == raw@.subrange(0, 4)[1]);
                assert(raw@[2] == raw@.subrange(0, 4)[2]);
                assert(raw@[3] == raw@.subrange(0, 4)[3]);
            }
        }
        return Err(owned("io error: invalid dump payload magic"));
    }
    assert(raw@.subrange(0, 4) =~= dump_magic());
    let body = vstd::slice::slice_subrange(raw.as_slice(), 4, raw.len());
    match decode_body_x(body, now) {
        Ok(item) => Ok(item),
        Err(m) => match compact_json_bytes(body) {
            Ok(_) => Err(m),
            Err(json_message) => {
                let mut text = owned("json error: ");
                append(&mut text, json_message.as_str());
                Err(text)
            },
        },
    }
}

// ---------------------------------------------------------------------------
// What a dump gives back
// ---------------------------------------------------------------------------

/// A byte that stands for itself inside a JSON string.
pub open spec fn plain(b: u8) -> bool {
    b >= 32 && b != 34 && b != 92
}

proof fn lemma_at_split(s: Seq<u8>, p: int, x: Seq<u8>, y: Seq<u8>)
    requires
        at(s, p, x + y),
    ensures
        at(s, p, x),
        at(s, p + x.len(), y),
{
    let w = s.subrange(p, p + (x + y).len());
    assert(w == x + y);
    assert forall|i: int| 0 <= i < x.len() implies #[trigger] s.subrange(p, p + x.len())[i]
        == x[i] by {
        assert(w[i] == s[p + i]);
        assert((x + y)[i] == x[i]);
    }
    assert(s.subrange(p, p + x.len()) =~= x);
    assert forall|i: int| 0 <= i < y.len() implies #[trigger] s.subrange(
        p + x.len(),
        p + x.len() + y.len(),
    )[i] == y[i] by {
        assert(w[x.len() + i] == s[p + x.len() + i]);
        assert((x + y)[x.len() + i] == y[i]);
    }
    assert(s.subrange(p + x.len(), p + x.len() + y.len()) =~= y);
}

proof fn lemma_at_byte(s: Seq<u8>, p: int, x: Seq<u8>, i: int)
    requires
        at(s, p, x),
        0 <= i < x.len(),
    ensures
        s[p + i] == x[i],
{
    assert(s.subrange(p, p + x.len())[i] == s[p + i]);
}

proof fn lemma_skip_none(s: Seq<u8>, p: int)
    requires
        0 <= p < s.len(),
        !is_ws(s[p]),
    ensures
        skip_ws(s, p) == p,
{
}

proof fn lemma_hex_byte_val(d: nat)
    requires
        d < 16,
    ensures
        hex_val(hex_byte(d)) == Some(d),
{
}

proof fn lemma_plain_escape(k: Seq<u8>)
    requires
        forall|i: int| 0 <= i < k.len() ==> plain(#[trigger] k[i]),
    ensures
        escape_bytes(k) == k,
    decreases k.len(),
{
    if k.len() > 0 {
        let r = k.drop_first();
        assert forall|i: int| 0 <= i < r.len() implies plain(#[trigger] r[i]) by {
            assert(r[i] == k[i + 1]);
        }
        lemma_plain_escape(r);
        assert(plain(k[0]));
        assert(escape_bytes(k) == escape_byte(k[0]) + escape_bytes(r));
        assert(escape_bytes(k) =~= k);
    }
}

/// Reading an escaped string body gives back the bytes it was written from.
proof fn lemma_read_escaped(s: Seq<u8>, p: int, b: Seq<u8>)
    requires
        at(s, p, escape_bytes(b) + seq![34u8]),
    ensures
        read_str_body(s, p) == Some((b, p + escape_bytes(b).len() + 1)),
    decreases b.len(),
{
    let e = escape_bytes(b);
    if b.len() == 0 {
        assert(e =~= Seq::<u8>::empty());
        lemma_at_byte(s, p, e + seq![34u8], 0);
        assert(b =~= Seq::<u8>::empty());
    } else {
        let x = b[0];
        let r = b.drop_first();
        let ex = escape_byte(x);
        let er = escape_bytes(r);
        assert(e == ex + er);
        assert(e + seq![34u8] =~= ex + (er + seq![34u8]));
        lemma_at_split(s, p, ex, er + seq![34u8]);
        lemma_read_escaped(s, p + ex.len(), r);
        lemma_at_byte(s, p, ex, 0);
        if plain(x) {
            assert(ex =~= seq![x]);
            assert(read_str_body(s, p) == Some((seq![x] + r, p + 1 + er.len() + 1)));
        } else if x < 32 && x != 8 && x != 12 && x != 10 && x != 13 && x != 9 {
            lemma_at_byte(s, p, ex, 1);
            lemma_at_byte(s, p, ex, 2);
            lemma_at_byte(s, p, ex, 3);
            lemma_at_byte(s, p, ex, 4);
            lemma_at_byte(s, p, ex, 5);
            lemma_hex_byte_val((x / 16) as nat);
            lemma_hex_byte_val((x % 16) as nat);
            assert(hex4(s, p + 2) == Some(x as nat));
            assert(utf8_of_scalar(x as nat) =~= seq![x]);
            assert(read_escape(s, p) == Some((seq![x], p + 6)));
        } else {
            lemma_at_byte(s, p, ex, 1);
            assert(read_escape(s, p) == Some((seq![x], p + 2)));
        }
        assert(seq![x] + r =~= b);
    }
}

proof fn lemma_read_quoted(s: Seq<u8>, p: int, b: Seq<u8>)
    requires
        at(s, p, quoted(escape_bytes(b))),
    ensures
        read_string(s, p) == Some((b, p + quoted(escape_bytes(b)).len())),
{
    let e = escape_bytes(b);
    assert(quoted(e) =~= seq![34u8] + (e + seq![34u8]));
    lemma_at_split(s, p, seq![34u8], e + seq![34u8]);
    lemma_at_byte(s, p, seq![34u8], 0);
    lemma_read_escaped(s, p + 1, b);
}

proof fn lemma_dec_bytes(n: nat)
    ensures
        dec_bytes(n).len() >= 1,
        forall|i: int| 0 <= i < dec_bytes(n).len() ==> is_digit_byte(#[trigger] dec_bytes(n)[i]),
        dec_value(dec_bytes(n)) == n,
        dec_bytes(n)[0] == 48 <==> n == 0,
        n == 0 ==> dec_bytes(n).len() == 1,
    decreases n,
{
    if n >= 10 {
        lemma_dec_bytes(n / 10);
        let d = dec_bytes(n);
        assert(d.drop_last() =~= dec_bytes(n / 10));
        assert(d[0] == dec_bytes(n / 10)[0]);
        assert(d.last() == (48 + n % 10) as u8);
        assert(dec_value(d) == dec_value(d.drop_last()) * 10 + (d.last() - 48) as nat);
        assert((n / 10) * 10 + n % 10 == n);
    } else {
        let d = dec_bytes(n);
        assert(d.drop_last() =~= Seq::<u8>::empty());
        assert(dec_value(d) == dec_value(d.drop_last()) * 10 + (d.last() - 48) as nat);
    }
}

proof fn lemma_digit_end_run(s: Seq<u8>, p: int, d: Seq<u8>)
    requires
        at(s, p, d),
        forall|i: int| 0 <= i < d.len() ==> is_digit_byte(#[trigger] d[i]),
        p + d.len() < s.len(),
        !is_digit_byte(s[p + d.len()]),
    ensures
        digit_end(s, p) == p + d.len(),
    decreases d.len(),
{
    if d.len() > 0 {
        lemma_at_byte(s, p, d, 0);
        assert(d =~= seq![d[0]] + d.drop_first());
        lemma_at_split(s, p, seq![d[0]], d.drop_first());
        assert forall|i: int| 0 <= i < d.drop_first().len() implies is_digit_byte(
            #[trigger] d.drop_first()[i],
        ) by {
            assert(d.drop_first()[i] == d[i + 1]);
        }
        lemma_digit_end_run(s, p + 1, d.drop_first());
    }
}

proof fn lemma_read_dec(s: Seq<u8>, p: int, n: nat, max: nat)
    requires
        n <= max,
        at(s, p, dec_bytes(n)),
        p + dec_bytes(n).len() < s.len(),
        !is_digit_byte(s[p + dec_bytes(n).len()]),
    ensures
        read_uint(s, p, max) == Some((n, p + dec_bytes(n).len())),
{
    lemma_dec_bytes(n);
    let d = dec_bytes(n);
    lemma_at_byte(s, p, d, 0);
    if n != 0 {
        lemma_digit_end_run(s, p, d);
        assert(s.subrange(p, p + d.len()) == d);
    }
}

proof fn lemma_unhex(b: Seq<u8>)
    ensures
        unhex(hex_bytes(b)) == Some(b),
{
    let h = hex_bytes(b);
    assert forall|i: int| 0 <= i < h.len() implies (#[trigger] hex_val(h[i])) is Some by {
        lemma_hex_byte_val((b[i / 2] / 16) as nat);
        lemma_hex_byte_val((b[i / 2] % 16) as nat);
    }
    assert forall|i: int| 0 <= i < b.len() implies ((hex_val(h[2 * i])->0 * 16 + hex_val(
        h[2 * i + 1],
    )->0) as u8) == #[trigger] b[i] by {
        lemma_hex_byte_val((b[i] / 16) as nat);
        lemma_hex_byte_val((b[i] % 16) as nat);
        assert((2 * i) / 2 == i);
        assert((2 * i + 1) / 2 == i);
    }
    assert(unhex(h)->Some_0 =~= b);
}

/// The `value` members that the object written for a value holds.
pub open spec fn slots_of(v: WireValueView) -> ValueSlots {
    ValueSlots {
        kind: Some(kind_name(v)),
        data: match v {
            WireValueView::Null => None,
            WireValueView::Bytes(b) => Some(hex_bytes(b)),
            WireValueView::Str(t) => Some(encode_utf8(t)),
            WireValueView::Json(t) => Some(encode_utf8(t)),
        },
    }
}

proof fn lemma_plain_all(k: Seq<u8>)
    requires
        forall|i: int| 0 <= i < k.len() ==> plain(#[trigger] k[i]),
    ensures
        quoted(escape_bytes(k)) == quoted(k),
{
    lemma_plain_escape(k);
}

proof fn lemma_hex_plain(b: Seq<u8>)
    ensures
        forall|i: int| 0 <= i < hex_bytes(b).len() ==> plain(#[trigger] hex_bytes(b)[i]),
{
}

/// Reading a member name and its colon, then the whitespace-free value
/// start that follows.
proof fn lemma_member_head(s: Seq<u8>, p: int, k: Seq<u8>)
    requires
        forall|i: int| 0 <= i < k.len() ==> plain(#[trigger] k[i]),
        at(s, p, member(k)),
        p + member(k).len() < s.len(),
        !is_ws(s[p + member(k).len()]),
    ensures
        read_string(s, p) == Some((k, p + k.len() + 2)),
        skip_ws(s, p + k.len() + 2) == p + k.len() + 2,
        s[p + k.len() + 2] == 58,
        skip_ws(s, p + k.len() + 3) == p + member(k).len(),
{
    lemma_plain_all(k);
    assert(member(k) =~= quoted(escape_bytes(k)) + seq![58u8]);
    lemma_at_split(s, p, quoted(escape_bytes(k)), seq![58u8]);
    lemma_read_quoted(s, p, k);
    lemma_at_byte(s, p, member(k), k.len() + 2int);
}

/// One member of the envelope, followed by a comma (or by the closing
/// brace when `last`).
proof fn lemma_env_step(s: Seq<u8>, p: int, k: Seq<u8>, st: EnvSlots, st2: EnvSlots, q: int, last: bool)
    requires
        forall|i: int| 0 <= i < k.len() ==> plain(#[trigger] k[i]),
        at(s, p, member(k)),
        p + member(k).len() < s.len(),
        !is_ws(s[p + member(k).len()]),
        env_field(s, p + member(k).len(), k, st) == Some((st2, q)),
        0 <= q < s.len(),
        s[q] == (if last {
            125u8
        } else {
            44u8
        }),
        !last ==> q + 1 < s.len() && !is_ws(s[q + 1]),
    ensures
        env_members(s, p, st) == if last {
            Some((st2, q + 1))
        } else {
            env_members(s, q + 1, st2)
        },
{
    reveal(env_members);
    lemma_member_head(s, p, k);
    lemma_skip_none(s, q);
    if !last {
        lemma_skip_none(s, q + 1);
    }
}

/// One member of a `value` object, followed by a comma (or by the closing
/// brace when `last`).
proof fn lemma_value_step(s: Seq<u8>, p: int, k: Seq<u8>, st: ValueSlots, d: Seq<u8>, last: bool)
    requires
        forall|i: int| 0 <= i < k.len() ==> plain(#[trigger] k[i]),
        k == key_type() || k == key_data(),
        k == key_type() ==> st.kind is None,
        k == key_data() ==> st.data is None,
        at(s, p, member(k) + quoted(escape_bytes(d))),
        p + member(k).len() + quoted(escape_bytes(d)).len() < s.len(),
        s[p + member(k).len() + quoted(escape_bytes(d)).len()] == (if last {
            125u8
        } else {
            44u8
        }),
        !last ==> p + member(k).len() + quoted(escape_bytes(d)).len() + 1 < s.len() && !is_ws(
            s[p + member(k).len() + quoted(escape_bytes(d)).len() + 1],
        ),
    ensures
        ({
            let st2 = if k == key_type() {
                ValueSlots { kind: Some(d), ..st }
            } else {
                ValueSlots { data: Some(d), ..st }
            };
            let q = p + member(k).len() + quoted(escape_bytes(d)).len();
            value_members(s, p, st) == if last {
                Some((st2, q + 1))
            } else {
                value_members(s, q + 1, st2)
            }
        }),
{
    reveal(value_members);
    lemma_at_split(s, p, member(k), quoted(escape_bytes(d)));
    lemma_at_byte(s, p + member(k).len(), quoted(escape_bytes(d)), 0);
    lemma_member_head(s, p, k);
    lemma_read_quoted(s, p + member(k).len(), d);
    assert(key_type() != key_data()) by {
        assert(key_type()[0] != key_data()[0]);
    }
    let q = p + member(k).len() + quoted(escape_bytes(d)).len();
    lemma_skip_none(s, q);
    if !last {
        lemma_skip_none(s, q + 1);
    }
}

/// Reading the `value` object written for a value gives back its members.
proof fn lemma_value_object(s: Seq<u8>, p: int, v: WireValueView)
    requires
        at(s, p, value_object(v)),
    ensures
        read_value_object(s, p) == Some((slots_of(v), p + value_object(v).len())),
{
    let o = value_object(v);
    let mt = member(key_type());
    let kt = quoted(kind_name(v));
    let empty = ValueSlots { kind: None, data: None };
    lemma_at_byte(s, p, o, 0);
    lemma_at_byte(s, p, o, 1);
    lemma_skip_none(s, p + 1);
    assert(forall|i: int| 0 <= i < kind_name(v).len() ==> plain(#[trigger] kind_name(v)[i]));
    lemma_plain_escape(kind_name(v));
    match data_text(v) {
        None => {
            assert(o =~= seq![123u8] + ((mt + quoted(escape_bytes(kind_name(v)))) + seq![125u8]));
            lemma_at_split(s, p, seq![123u8], (mt + quoted(escape_bytes(kind_name(v)))) + seq![125u8]);
            lemma_at_split(s, p + 1, mt + quoted(escape_bytes(kind_name(v))), seq![125u8]);
            lemma_at_byte(s, p + 1 + (mt + quoted(escape_bytes(kind_name(v)))).len(), seq![125u8], 0);
            lemma_value_step(s, p + 1, key_type(), empty, kind_name(v), true);
            assert(slots_of(v) == ValueSlots { kind: Some(kind_name(v)), ..empty });
        },
        Some(d) => {
            let raw = slots_of(v).data->0;
            assert(escape_bytes(raw) == d) by {
                if let WireValueView::Bytes(b) = v {
                    lemma_hex_plain(b);
                    lemma_plain_escape(hex_bytes(b));
                }
            }
            let first = mt + quoted(escape_bytes(kind_name(v)));
            let second = member(key_data()) + quoted(escape_bytes(raw));
            assert(o =~= seq![123u8] + (first + (seq![44u8] + (second + seq![125u8]))));
            lemma_at_split(s, p, seq![123u8], first + (seq![44u8] + (second + seq![125u8])));
            lemma_at_split(s, p + 1, first, seq![44u8] + (second + seq![125u8]));
            lemma_at_split(s, p + 1 + first.len(), seq![44u8], second + seq![125u8]);
            lemma_at_split(s, p + 2 + first.len(), second, seq![125u8]);
            lemma_at_byte(s, p + 1 + first.len(), seq![44u8], 0);
            lemma_at_byte(s, p + 2 + first.len(), second, 0);
            lemma_at_byte(s, p + 2 + first.len() + second.len(), seq![125u8], 0);
            lemma_value_step(s, p + 1, key_type(), empty, kind_name(v), false);
            let st1 = ValueSlots { kind: Some(kind_name(v)), ..empty };
            lemma_value_step(s, p + 2 + first.len(), key_data(), st1, raw, true);
            assert(slots_of(v) == ValueSlots { data: Some(raw), ..st1 });
        },
    }
}

/// The value that the members written for a value stand for is that value.
proof fn lemma_slots_value(v: WireValueView)
    ensures
        slots_value(slots_of(v)) == Some(v),
{
    assert(type_none() != type_json()) by {
        assert(type_none()[0] != type_json()[0]);
    }
    match v {
        WireValueView::Bytes(b) => {
            lemma_unhex(b);
        },
        _ => {},
    }
}

/// The bytes of the `is_json` member's value.
pub open spec fn bool_bytes(b: bool) -> Seq<u8> {
    if b {
        lit_true()
    } else {
        lit_false()
    }
}

/// The bytes of the `ttl_ms` member's value.
pub open spec fn ttl_bytes(t: Option<nat>) -> Seq<u8> {
    match t {
        None => lit_null(),
        Some(ms) => dec_bytes(ms),
    }
}

proof fn lemma_keys_plain()
    ensures
        forall|i: int| 0 <= i < key_v().len() ==> plain(#[trigger] key_v()[i]),
        forall|i: int| 0 <= i < key_is_json().len() ==> plain(#[trigger] key_is_json()[i]),
        forall|i: int| 0 <= i < key_ttl_ms().len() ==> plain(#[trigger] key_ttl_ms()[i]),
        forall|i: int| 0 <= i < key_value().len() ==> plain(#[trigger] key_value()[i]),
        forall|i: int| 0 <= i < key_type().len() ==> plain(#[trigger] key_type()[i]),
        forall|i: int| 0 <= i < key_data().len() ==> plain(#[trigger] key_data()[i]),
{
}

/// A member `k` with value bytes `val`, followed by `sep`, at position `a`.
proof fn lemma_member_parts(b: Seq<u8>, a: int, k: Seq<u8>, val: Seq<u8>, sep: u8)
    requires
        at(b, a, member(k) + val + seq![sep]),
        val.len() > 0,
    ensures
        at(b, a, member(k)),
        at(b, a + member(k).len(), val),
        b[a + member(k).len()] == val[0],
        b[a + member(k).len() + val.len()] == sep,
        a + member(k).len() + val.len() < b.len(),
{
    lemma_at_split(b, a, member(k) + val, seq![sep]);
    lemma_at_split(b, a, member(k), val);
    lemma_at_byte(b, a + member(k).len(), val, 0);
    lemma_at_byte(b, a + member(k).len() + val.len(), seq![sep], 0);
}

proof fn lemma_step_v(b: Seq<u8>, a: int, st: EnvSlots)
    requires
        st.v is None,
        at(b, a, member(key_v()) + dec_bytes(1) + seq![44u8]),
        a + (member(key_v()) + dec_bytes(1) + seq![44u8]).len() < b.len(),
        b[a + (member(key_v()) + dec_bytes(1) + seq![44u8]).len()] == 34,
    ensures
        env_members(b, a, st) == env_members(
            b,
            a + (member(key_v()) + dec_bytes(1) + seq![44u8]).len(),
            EnvSlots { v: Some(1), ..st },
        ),
{
    lemma_keys_plain();
    lemma_dec_bytes(1);
    lemma_member_parts(b, a, key_v(), dec_bytes(1), 44);
    let f = a + member(key_v()).len();
    lemma_read_dec(b, f, 1, 255);
    let q = f + dec_bytes(1).len();
    assert(env_field(b, f, key_v(), st) == Some((EnvSlots { v: Some(1), ..st }, q)));
    lemma_env_step(b, a, key_v(), st, EnvSlots { v: Some(1), ..st }, q, false);
}

proof fn lemma_step_is_json(b: Seq<u8>, a: int, st: EnvSlots, is_json: bool)
    requires
        st.is_json is None,
        at(b, a, member(key_is_json()) + bool_bytes(is_json) + seq![44u8]),
        a + (member(key_is_json()) + bool_bytes(is_json) + seq![44u8]).len() < b.len(),
        b[a + (member(key_is_json()) + bool_bytes(is_json) + seq![44u8]).len()] == 34,
    ensures
        env_members(b, a, st) == env_members(
            b,
            a + (member(key_is_json()) + bool_bytes(is_json) + seq![44u8]).len(),
            EnvSlots { is_json: Some(is_json), ..st },
        ),
{
    lemma_keys_plain();
    lemma_member_parts(b, a, key_is_json(), bool_bytes(is_json), 44);
    let f = a + member(key_is_json()).len();
    let q = f + bool_bytes(is_json).len();
    assert(key_is_json() != key_v());
    if !is_json {
        assert(!at(b, f, lit_true())) by {
            if at(b, f, lit_true()) {
                lemma_at_byte(b, f, lit_true(), 0);
            }
        }
    }
    assert(env_field(b, f, key_is_json(), st) == Some((EnvSlots { is_json: Some(is_json), ..st }, q)));
    lemma_env_step(b, a, key_is_json(), st, EnvSlots { is_json: Some(is_json), ..st }, q, false);
}

proof fn lemma_step_ttl(b: Seq<u8>, a: int, st: EnvSlots, ttl: Option<nat>)
    requires
        st.ttl is None,
        ttl matches Some(ms) ==> ms <= u64::MAX,
        at(b, a, member(key_ttl_ms()) + ttl_bytes(ttl) + seq![44u8]),
        a + (member(key_ttl_ms()) + ttl_bytes(ttl) + seq![44u8]).len() < b.len(),
        b[a + (member(key_ttl_ms()) + ttl_bytes(ttl) + seq![44u8]).len()] == 34,
    ensures
        env_members(b, a, st) == env_members(
            b,
            a + (member(key_ttl_ms()) + ttl_bytes(ttl) + seq![44u8]).len(),
            EnvSlots { ttl: Some(ttl), ..st },
        ),
{
    lemma_keys_plain();
    match ttl {
        Some(ms) => {
            lemma_dec_bytes(ms);
        },
        None => {},
    }
    lemma_member_parts(b, a, key_ttl_ms(), ttl_bytes(ttl), 44);
    let f = a + member(key_ttl_ms()).len();
    let q = f + ttl_bytes(ttl).len();
    assert(key_ttl_ms() != key_v());
    assert(key_ttl_ms() != key_is_json());
    match ttl {
        None => {},
        Some(ms) => {
            assert(!at(b, f, lit_null())) by {
                if at(b, f, lit_null()) {
                    lemma_at_byte(b, f, lit_null(), 0);
                }
            }
            lemma_read_dec(b, f, ms, u64::MAX as nat);
        },
    }
    assert(env_field(b, f, key_ttl_ms(), st) == Some((EnvSlots { ttl: Some(ttl), ..st }, q)));
    lemma_env_step(b, a, key_ttl_ms(), st, EnvSlots { ttl: Some(ttl), ..st }, q, false);
}

proof fn lemma_step_value(b: Seq<u8>, a: int, st: EnvSlots, v: WireValueView)
    requires
        st.value is None,
        at(b, a, member(key_value()) + value_object(v) + seq![125u8]),
    ensures
        env_members(b, a, st) == Some(
            (
                EnvSlots { value: Some(Some(slots_of(v))), ..st },
                a + (member(key_value()) + value_object(v) + seq![125u8]).len(),
            ),
        ),
{
    lemma_keys_plain();
    lemma_member_parts(b, a, key_value(), value_object(v), 125);
    let f = a + member(key_value()).len();
    let q = f + value_object(v).len();
    assert(key_value() != key_v());
    assert(key_value() != key_is_json());
    assert(key_value() != key_ttl_ms());
    lemma_value_object(b, f, v);
    assert(env_field(b, f, key_value(), st) == Some((EnvSlots { value: Some(Some(slots_of(v))), ..st }, q)));
    lemma_env_step(b, a, key_value(), st, EnvSlots { value: Some(Some(slots_of(v))), ..st }, q, true);
}

/// The envelope members that the body of a dump holds.
#[verifier::rlimit(30)]
proof fn lemma_envelope(b: Seq<u8>, is_json: bool, ttl: Option<nat>, v: WireValueView)
    requires
        b == seq![123u8] + ((member(key_v()) + dec_bytes(1) + seq![44u8]) + ((member(key_is_json())
            + bool_bytes(is_json) + seq![44u8]) + ((member(key_ttl_ms()) + ttl_bytes(ttl) + seq![
            44u8,
        ]) + (member(key_value()) + value_object(v) + seq![125u8])))),
        ttl matches Some(ms) ==> ms <= u64::MAX,
    ensures
        parse_envelope(b) == Some(
            EnvSlots {
                v: Some(1),
                is_json: Some(is_json),
                ttl: Some(ttl),
                value: Some(Some(slots_of(v))),
            },
        ),
{
    let empty = EnvSlots { v: None, is_json: None, ttl: None, value: None };
    let x1 = member(key_v()) + dec_bytes(1) + seq![44u8];
    let x2 = member(key_is_json()) + bool_bytes(is_json) + seq![44u8];
    let x3 = member(key_ttl_ms()) + ttl_bytes(ttl) + seq![44u8];
    let x4 = member(key_value()) + value_object(v) + seq![125u8];
    assert(at(b, 0, b)) by {
        assert(b.subrange(0, b.len() as int) =~= b);
    }
    lemma_at_split(b, 0, seq![123u8], x1 + (x2 + (x3 + x4)));
    let a1: int = 1;
    lemma_at_split(b, a1, x1, x2 + (x3 + x4));
    let a2 = a1 + x1.len();
    lemma_at_split(b, a2, x2, x3 + x4);
    let a3 = a2 + x2.len();
    lemma_at_split(b, a3, x3, x4);
    let a4 = a3 + x3.len();
    lemma_at_byte(b, 0, seq![123u8], 0);
    lemma_at_byte(b, a1, x1, 0);
    lemma_at_byte(b, a2, x2, 0);
    lemma_at_byte(b, a3, x3, 0);
    lemma_at_byte(b, a4, x4, 0);
    lemma_step_v(b, a1, empty);
    let st1 = EnvSlots { v: Some(1), ..empty };
    lemma_step_is_json(b, a2, st1, is_json);
    let st2 = EnvSlots { is_json: Some(is_json), ..st1 };
    lemma_step_ttl(b, a3, st2, ttl);
    let st3 = EnvSlots { ttl: Some(ttl), ..st2 };
    lemma_step_value(b, a4, st3, v);
    assert(a4 + x4.len() == b.len());
    lemma_skip_none(b, 0);
    lemma_skip_none(b, 1);
}

/// Loading what `DUMP` wrote gives back the entry: its value and kind
/// unchanged, and, for an entry that expires, the time it had left (cut to
/// whole milliseconds) counted from the moment it is loaded.
#[verifier::rlimit(30)]
pub proof fn law_dump_load_roundtrip(item: ItemView, dumped_at: int, loaded_at: int)
    ensures
        spec_decode_dump(WireValueView::Bytes(spec_encode_dump(item, dumped_at)), loaded_at) == Ok::<
            ItemView,
            DumpError,
        >(
            ItemView {
                value: item.value,
                is_json: item.is_json,
                expires_at: match ttl_ms_left(item.expires_at, dumped_at) {
                    Some(ms) => Some(loaded_at + ms * 1000000),
                    None => None,
                },
            },
        ),
{
    let raw = spec_encode_dump(item, dumped_at);
    let ttl = ttl_ms_left(item.expires_at, dumped_at);
    let body = raw.subrange(4, raw.len() as int);
    assert(raw.subrange(0, 4) =~= dump_magic());
    assert(body =~= seq![123u8] + ((member(key_v()) + dec_bytes(1) + seq![44u8]) + ((member(
        key_is_json(),
    ) + bool_bytes(item.is_json) + seq![44u8]) + ((member(key_ttl_ms()) + ttl_bytes(ttl) + seq![
        44u8,
    ]) + (member(key_value()) + value_object(item.value) + seq![125u8])))));
    lemma_envelope(body, item.is_json, ttl, item.value);
    lemma_slots_value(item.value);
}

} // verus!
