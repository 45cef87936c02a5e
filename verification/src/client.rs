//! The client side: turning response frames into Redis-style values, and a
//! client that sends commands through a transport of the caller's choosing.

use vstd::prelude::*;
use crate::codec::{
    decode_response, encode_command, str_value, spec_decode_response, spec_encode_command, value_bytes, values_view,
    CodecError, CodecErrorView, ResponseFrame, ResponseKind, ResponseView, WireValue, WireValueView,
};
use crate::text::{append, chars_of, int_text, lossy_utf8, nat_text, owned, u64_text, i64_text, from_utf8_lossy};
use crate::ttl::{digit_value, digits_value, is_digit};
use crate::json::{compact_json, compact_json_bytes, json_bytes_error, json_compact, json_compact_bytes, json_error};

verus! {

/// A value as a Redis client sees it.
#[derive(Debug, PartialEq)]
pub enum RedisValue {
    Nil,
    Bytes(Vec<u8>),
    Integer(i64),
    Array(Vec<RedisValue>),
}

/// The mathematical model of a [`RedisValue`].
pub enum RedisValueView {
    Nil,
    Bytes(Seq<u8>),
    Integer(int),
    Array(Seq<RedisValueView>),
}

/// The model of a value, element by element.
pub open spec fn redis_view(v: RedisValue) -> RedisValueView
    decreases v,
{
    match v {
        RedisValue::Nil => RedisValueView::Nil,
        RedisValue::Bytes(b) => RedisValueView::Bytes(b@),
        RedisValue::Integer(i) => RedisValueView::Integer(i as int),
        RedisValue::Array(items) => RedisValueView::Array(
            Seq::new(
                items@.len(),
                |i: int|
                    if 0 <= i < items@.len() {
                        redis_view(items@[i])
                    } else {
                        RedisValueView::Nil
                    },
            ),
        ),
    }
}

impl Clone for RedisValue {
    /// A copy of the value, item by item.
    fn clone(&self) -> (r: Self)
        ensures
            r@ == self@,
        decreases self,
    {
        match self {
            RedisValue::Nil => RedisValue::Nil,
            RedisValue::Bytes(b) => RedisValue::Bytes(b.clone()),
            RedisValue::Integer(i) => RedisValue::Integer(*i),
            RedisValue::Array(items) => {
                let mut out: Vec<RedisValue> = Vec::new();
                let mut i: usize = 0;
                while i < items.len()
                    invariant
                        i <= items@.len(),
                        *self == RedisValue::Array(*items),
                        out@.len() == i,
                        forall|j: int| 0 <= j < i ==> #[trigger] out@[j]@ == items@[j]@,
                    decreases items@.len() - i,
                {
                    proof {
                        assert(decreases_to!(*self => (*self)->Array_0));
                        assert((*self)->Array_0 == *items);
                        vstd::std_specs::vec::axiom_vec_index_decreases(*items, i as int);
                        assert(decreases_to!(*self => items[i as int]));
                    }
                    let c = items[i].clone();
                    out.push(c);
                    i = i + 1;
                }
                let ghost ov = out@;
                let r = RedisValue::Array(out);
                proof {
                    let a = r@->Array_0;
                    let b = self@->Array_0;
                    assert(a.len() == b.len());
                    assert forall|j: int| 0 <= j < a.len() implies a[j] == b[j] by {
                        assert(a[j] == redis_view(ov[j]));
                        assert(b[j] == redis_view(items@[j]));
                        assert(ov[j]@ == items@[j]@);
                    }
                    assert(a =~= b);
                }
                r
            },
        }
    }
}

impl View for RedisValue {
    type V = RedisValueView;

    open spec fn view(&self) -> RedisValueView {
        redis_view(*self)
    }
}

// ---------------------------------------------------------------------------
// Errors
// ---------------------------------------------------------------------------

/// The errors a client reports.
#[derive(Debug)]
pub enum ClientError {
    Codec(CodecError),
    Server(String),
    Transport(String),
    Unexpected(String),
    Json(String),
}

/// The mathematical model of a [`ClientError`].
pub enum ClientErrorView {
    Codec(CodecErrorView),
    Server(Seq<char>),
    Transport(Seq<char>),
    Unexpected(Seq<char>),
    Json(Seq<char>),
}

impl View for ClientError {
    type V = ClientErrorView;

    open spec fn view(&self) -> ClientErrorView {
        match self {
            ClientError::Codec(e) => ClientErrorView::Codec(e@),
            ClientError::Server(m) => ClientErrorView::Server(m@),
            ClientError::Transport(m) => ClientErrorView::Transport(m@),
            ClientError::Unexpected(m) => ClientErrorView::Unexpected(m@),
            ClientError::Json(m) => ClientErrorView::Json(m@),
        }
    }
}

/// The text of a client error, as its message reads.
pub open spec fn client_error_text(e: ClientErrorView) -> Seq<char> {
    match e {
        ClientErrorView::Codec(c) => "codec error: "@ + crate::codec::codec_error_text(c),
        ClientErrorView::Server(m) => "server error: "@ + m,
        ClientErrorView::Transport(m) => "transport error: "@ + m,
        ClientErrorView::Unexpected(m) => "unexpected response: "@ + m,
        ClientErrorView::Json(m) => "json error: "@ + m,
    }
}

fn prefixed(prefix: &str, tail: &str) -> (r: String)
    ensures
        r@ == prefix@ + tail@,
{
    let mut t = owned(prefix);
    append(&mut t, tail);
    t
}

impl ClientError {
    /// The error's message.
    pub fn text(&self) -> (r: String)
        ensures
            r@ == client_error_text(self@),
    {
        match self {
            ClientError::Codec(e) => prefixed("codec error: ", e.text().as_str()),
            ClientError::Server(m) => prefixed("server error: ", m.as_str()),
            ClientError::Transport(m) => prefixed("transport error: ", m.as_str()),
            ClientError::Unexpected(m) => prefixed("unexpected response: ", m.as_str()),
            ClientError::Json(m) => prefixed("json error: ", m.as_str()),
        }
    }
}

/// The models of a value-or-error result.
pub open spec fn redis_result(r: Result<RedisValue, ClientError>) -> Result<RedisValueView, ClientErrorView> {
    match r {
        Ok(v) => Ok(v@),
        Err(e) => Err(e@),
    }
}

// ---------------------------------------------------------------------------
// Integers as text
// ---------------------------------------------------------------------------

/// Whether a text starts with a sign.
pub open spec fn has_sign(t: Seq<char>) -> bool {
    t.len() > 0 && (t[0] == '-' || t[0] == '+')
}

/// A text without its sign.
pub open spec fn unsigned_part(t: Seq<char>) -> Seq<char> {
    if has_sign(t) {
        t.drop_first()
    } else {
        t
    }
}

/// Whether every character is a decimal digit.
pub open spec fn all_digits(ds: Seq<char>) -> bool {
    forall|i: int| 0 <= i < ds.len() ==> is_digit(#[trigger] ds[i])
}

/// The `i64` that `str::parse::<i64>` reads from a text: an optional sign
/// and at least one decimal digit, nothing else, within range.
pub open spec fn parse_i64(t: Seq<char>) -> Option<int> {
    let ds = unsigned_part(t);
    let negative = has_sign(t) && t[0] == '-';
    if ds.len() == 0 || !all_digits(ds) {
        None
    } else {
        let v: int = if negative {
            -digits_value(ds)
        } else {
            digits_value(ds) as int
        };
        if i64::MIN <= v <= i64::MAX {
            Some(v)
        } else {
            None
        }
    }
}

/// Past this, a run of digits is out of range for `i64` either way.
const DIGITS_CAP: u128 = 9223372036854775809;

proof fn lemma_digits_step(ds: Seq<char>, c: char)
    requires
        is_digit(c),
    ensures
        digits_value(ds.push(c)) == digits_value(ds) * 10 + digit_value(c),
        digits_value(ds.push(c)) >= digits_value(ds),
{
    assert(ds.push(c).drop_last() =~= ds);
}

/// Reads an `i64` as `str::parse::<i64>` does.
pub fn parse_i64_text(text: &str) -> (r: Option<i64>)
    ensures
        match parse_i64(text@) {
            Some(v) => r == Some(v as i64),
            None => r is None,
        },
{
    let t = chars_of(text);
    let ghost tv = t@;
    let n = t.len();
    let signed = n > 0 && (t[0] == '-' || t[0] == '+');
    let negative = signed && t[0] == '-';
    let start: usize = if signed {
        1
    } else {
        0
    };
    let ghost ds = if signed {
        tv.drop_first()
    } else {
        tv
    };
    assert(ds =~= tv.subrange(start as int, n as int));
    if start == n {
        return None;
    }
    let mut acc: u128 = 0;
    let mut i: usize = start;
    while i < n
        invariant
            start <= i <= n,
            n == tv.len(),
            t@ == tv,
            tv == text@,
            signed == (tv.len() > 0 && (tv[0] == '-' || tv[0] == '+')),
            negative == (signed && tv[0] == '-'),
            start == (if signed {
                1usize
            } else {
                0usize
            }),
            ds == (if signed {
                tv.drop_first()
            } else {
                tv
            }),
            ds =~= tv.subrange(start as int, n as int),
            acc <= DIGITS_CAP,
            acc as int == if digits_value(tv.subrange(start as int, i as int)) < DIGITS_CAP {
                digits_value(tv.subrange(start as int, i as int)) as int
            } else {
                DIGITS_CAP as int
            },
            forall|j: int| start <= j < i ==> is_digit(#[trigger] tv[j]),
        decreases n - i,
    {
        let c = t[i];
        if !('0' <= c && c <= '9') {
            proof {
                assert(ds[i - start] == tv[i as int]);
                assert(!is_digit(ds[i - start]));
                assert(!all_digits(ds));
            }
            return None;
        }
        proof {
            lemma_digits_step(tv.subrange(start as int, i as int), c);
            assert(tv.subrange(start as int, i as int).push(c) =~= tv.subrange(start as int, i + 1));
        }
        let d = (c as u32 - 48) as u128;
        acc = if acc * 10 + d > DIGITS_CAP {
            DIGITS_CAP
        } else {
            acc * 10 + d
        };
        i = i + 1;
    }
    proof {
        assert(tv.subrange(start as int, n as int) =~= ds);
        assert forall|j: int| 0 <= j < ds.len() implies is_digit(#[trigger] ds[j]) by {
            assert(ds[j] == tv[j + start]);
        }
        assert(all_digits(ds));
    }
    if negative {
        if acc > 9223372036854775808u128 {
            None
        } else if acc == 9223372036854775808u128 {
            Some(-9223372036854775807i64 - 1)
        } else {
            Some(-(acc as i64))
        }
    } else {
        if acc > 9223372036854775807u128 {
            None
        } else {
            Some(acc as i64)
        }
    }
}

// ---------------------------------------------------------------------------
// From response frames to values
// ---------------------------------------------------------------------------

/// The bytes of a wire value: the bytes as they are, text as UTF-8, JSON
/// as its text; nothing for `None`.
pub open spec fn wire_bytes(v: WireValueView) -> Seq<u8> {
    match value_bytes(v) {
        Some(b) => b,
        None => Seq::empty(),
    }
}

/// The value an array item stands for.
pub open spec fn item_value(x: Option<WireValueView>) -> RedisValueView {
    match x {
        Some(v) => RedisValueView::Bytes(wire_bytes(v)),
        None => RedisValueView::Nil,
    }
}

/// The bytes of `PONG`.
pub open spec fn pong_bytes() -> Seq<u8> {
    seq![80u8, 79u8, 78u8, 71u8]
}

/// What a client makes of a response.
pub open spec fn response_redis(f: ResponseView) -> Result<RedisValueView, ClientErrorView> {
    match f.kind {
        ResponseKind::Simple => Ok(RedisValueView::Bytes(
            match f.value {
                Some(v) => wire_bytes(v),
                None => Seq::empty(),
            },
        )),
        ResponseKind::Bulk => Ok(
            match f.value {
                Some(v) => RedisValueView::Bytes(wire_bytes(v)),
                None => RedisValueView::Nil,
            },
        ),
        ResponseKind::Integer => Ok(RedisValueView::Integer(
            match f.value {
                Some(v) => match parse_i64(crate::codec::lossy_key(v)) {
                    Some(i) => i,
                    None => 0,
                },
                None => 0,
            },
        )),
        ResponseKind::Array => Ok(RedisValueView::Array(
            Seq::new(f.array.len(), |i: int| item_value(f.array[i])),
        )),
        ResponseKind::Nil => Ok(RedisValueView::Nil),
        ResponseKind::Pong => Ok(RedisValueView::Bytes(
            match f.value {
                Some(v) => wire_bytes(v),
                None => pong_bytes(),
            },
        )),
        ResponseKind::Error => Err(ClientErrorView::Server(
            match f.message {
                Some(m) => m,
                None => "ERR unknown error"@,
            },
        )),
    }
}

fn wire_to_bytes(v: &WireValue) -> (r: Vec<u8>)
    ensures
        r@ == wire_bytes(v@),
{
    match v.to_bytes() {
        Some(b) => b,
        None => Vec::new(),
    }
}

/// Turns a response into the value a client sees; an error response
/// becomes a server error.
pub fn response_to_redis_value(frame: ResponseFrame) -> (r: Result<RedisValue, ClientError>)
    ensures
        redis_result(r) == response_redis(frame@),
{
    let ghost fv = frame@;
    let r = match frame.kind {
        ResponseKind::Simple => {
            let b = match &frame.value {
                Some(v) => wire_to_bytes(v),
                None => Vec::new(),
            };
            Ok(RedisValue::Bytes(b))
        },
        ResponseKind::Bulk => Ok(
            match &frame.value {
                Some(v) => RedisValue::Bytes(wire_to_bytes(v)),
                None => RedisValue::Nil,
            },
        ),
        ResponseKind::Integer => {
            let i: i64 = match &frame.value {
                Some(v) => {
                    let text = v.as_lossy_key();
                    match parse_i64_text(text.as_str()) {
                        Some(i) => i,
                        None => 0,
                    }
                },
                None => 0,
            };
            Ok(RedisValue::Integer(i))
        },
        ResponseKind::Array => {
            let mut items: Vec<RedisValue> = Vec::new();
            let mut i: usize = 0;
            while i < frame.array.len()
                invariant
                    i <= frame.array@.len(),
                    fv == frame@,
                    items@.len() == i,
                    forall|j: int| 0 <= j < i ==> #[trigger] items@[j]@ == item_value(fv.array[j]),
                decreases frame.array@.len() - i,
            {
                let item = match &frame.array[i] {
                    Some(v) => RedisValue::Bytes(wire_to_bytes(v)),
                    None => RedisValue::Nil,
                };
                proof {
                    assert(fv.array[i as int] == crate::codec::opt_view(frame.array@[i as int]));
                }
                items.push(item);
                i = i + 1;
            }
            let ghost iv = items@;
            let r = RedisValue::Array(items);
            proof {
                let s2 = Seq::new(fv.array.len(), |j: int| item_value(fv.array[j]));
                assert(r->Array_0@ == iv);
                let s0 = r@->Array_0;
                assert(s0.len() == iv.len());
                assert forall|j: int| 0 <= j < s0.len() implies s0[j] == s2[j] by {
                    assert(s0[j] == redis_view(iv[j]));
                    assert(iv[j]@ == item_value(fv.array[j]));
                }
                assert(s0 =~= s2);
            }
            Ok(r)
        },
        ResponseKind::Nil => Ok(RedisValue::Nil),
        ResponseKind::Pong => {
            let b = match &frame.value {
                Some(v) => wire_to_bytes(v),
                None => {
                    let p = vec![80u8, 79u8, 78u8, 71u8];
                    assert(p@ =~= pong_bytes());
                    p
                },
            };
            Ok(RedisValue::Bytes(b))
        },
        ResponseKind::Error => {
            let m = match &frame.message {
                Some(m) => m.clone(),
                None => owned("ERR unknown error"),
            };
            Err(ClientError::Server(m))
        },
    };
    assert(redis_result(r) == response_redis(fv));
    r
}

// ---------------------------------------------------------------------------
// Values as text
// ---------------------------------------------------------------------------

/// How a value prints: `(nil)`, its bytes as (lossy) UTF-8 text, its
/// number, or its items numbered from 1, one per line.
pub open spec fn display_text(v: RedisValueView) -> Seq<char>
    decreases v, 0nat,
{
    match v {
        RedisValueView::Nil => "(nil)"@,
        RedisValueView::Bytes(b) => lossy_utf8(b),
        RedisValueView::Integer(i) => int_text(i),
        RedisValueView::Array(items) => items_text(items, items.len()),
    }
}

/// The first `n` items of an array, as `display_text` prints them.
pub open spec fn items_text(items: Seq<RedisValueView>, n: nat) -> Seq<char>
    decreases items, n,
{
    if n == 0 || n > items.len() {
        Seq::empty()
    } else {
        items_text(items, (n - 1) as nat) + (if n > 1 {
            "\n"@
        } else {
            Seq::empty()
        }) + nat_text(n) + ") "@ + display_text(items[n - 1])
    }
}

/// The first `n` bytes as `{:?}` prints a list of them: decimal numbers
/// separated by `, `.
pub open spec fn bytes_debug(b: Seq<u8>, n: nat) -> Seq<char>
    decreases n,
{
    if n == 0 || n > b.len() {
        Seq::empty()
    } else {
        bytes_debug(b, (n - 1) as nat) + (if n > 1 {
            ", "@
        } else {
            Seq::empty()
        }) + nat_text(b[n - 1] as nat)
    }
}

/// A value as `{:?}` prints it.
pub open spec fn debug_text(v: RedisValueView) -> Seq<char>
    decreases v, 0nat,
{
    match v {
        RedisValueView::Nil => "Nil"@,
        RedisValueView::Bytes(b) => "Bytes(["@ + bytes_debug(b, b.len()) + "])"@,
        RedisValueView::Integer(i) => "Integer("@ + int_text(i) + ")"@,
        RedisValueView::Array(items) => "Array(["@ + items_debug(items, items.len()) + "])"@,
    }
}

/// The first `n` items of an array as `{:?}` prints them.
pub open spec fn items_debug(items: Seq<RedisValueView>, n: nat) -> Seq<char>
    decreases items, n,
{
    if n == 0 || n > items.len() {
        Seq::empty()
    } else {
        items_debug(items, (n - 1) as nat) + (if n > 1 {
            ", "@
        } else {
            Seq::empty()
        }) + debug_text(items[n - 1])
    }
}

fn push_bytes_debug(out: &mut String, b: &[u8])
    ensures
        final(out)@ == old(out)@ + bytes_debug(b@, b@.len()),
{
    let mut i: usize = 0;
    while i < b.len()
        invariant
            i <= b@.len(),
            out@ == old(out)@ + bytes_debug(b@, i as nat),
        decreases b@.len() - i,
    {
        if i > 0 {
            append(out, ", ");
        }
        let d = u64_text(b[i] as u64);
        append(out, d.as_str());
        i = i + 1;
    }
}

impl RedisValue {
    /// The bytes of a bytes value.
    pub fn as_bytes(&self) -> (r: Option<&[u8]>)
        ensures
            match self@ {
                RedisValueView::Bytes(b) => r matches Some(x) && x@ == b,
                _ => r is None,
            },
    {
        match self {
            RedisValue::Bytes(b) => Some(b.as_slice()),
            _ => None,
        }
    }

    /// The bytes of a bytes value, taken out of it.
    pub fn into_bytes(self) -> (r: Option<Vec<u8>>)
        ensures
            match self@ {
                RedisValueView::Bytes(b) => r matches Some(x) && x@ == b,
                _ => r is None,
            },
    {
        match self {
            RedisValue::Bytes(b) => Some(b),
            _ => None,
        }
    }

    /// How the value prints.
    pub fn to_text(&self) -> (r: String)
        ensures
            r@ == display_text(self@),
        decreases self,
    {
        match self {
            RedisValue::Nil => owned("(nil)"),
            RedisValue::Bytes(b) => from_utf8_lossy(b.as_slice()),
            RedisValue::Integer(i) => i64_text(*i),
            RedisValue::Array(items) => {
                let ghost iv = Seq::new(
                    items@.len(),
                    |j: int|
                        if 0 <= j < items@.len() {
                            redis_view(items@[j])
                        } else {
                            RedisValueView::Nil
                        },
                );
                let mut out = String::new();
                let mut i: usize = 0;
                while i < items.len()
                    invariant
                        i <= items@.len(),
                        *self == RedisValue::Array(*items),
                        iv.len() == items@.len(),
                        forall|j: int| 0 <= j < items@.len() ==> #[trigger] iv[j] == items@[j]@,
                        out@ == items_text(iv, i as nat),
                    decreases items@.len() - i,
                {
                    proof {
                        assert(decreases_to!(*self => (*self)->Array_0));
                        assert((*self)->Array_0 == *items);
                        vstd::std_specs::vec::axiom_vec_index_decreases(*items, i as int);
                        assert(decreases_to!(*self => items[i as int]));
                    }
                    let item = items[i].to_text();
                    if i > 0 {
                        append(&mut out, "\n");
                    }
                    let num = u64_text(i as u64 + 1);
                    append(&mut out, num.as_str());
                    append(&mut out, ") ");
                    append(&mut out, item.as_str());
                    proof {
                        assert(iv[i as int] == items@[i as int]@);
                    }
                    i = i + 1;
                }
                proof {
                    let sv = self@->Array_0;
                    assert(sv.len() == iv.len());
                    assert forall|j: int| 0 <= j < sv.len() implies sv[j] == iv[j] by {
                        assert(sv[j] == redis_view(items@[j]));
                    }
                    assert(sv =~= iv);
                }
                out
            },
        }
    }

    /// The value as `{:?}` prints it.
    pub fn debug_string(&self) -> (r: String)
        ensures
            r@ == debug_text(self@),
        decreases self,
    {
        match self {
            RedisValue::Nil => owned("Nil"),
            RedisValue::Bytes(b) => {
                let mut out = owned("Bytes([");
                push_bytes_debug(&mut out, b.as_slice());
                append(&mut out, "])");
                out
            },
            RedisValue::Integer(i) => {
                let mut out = owned("Integer(");
                append(&mut out, i64_text(*i).as_str());
                append(&mut out, ")");
                out
            },
            RedisValue::Array(items) => {
                let ghost iv = Seq::new(
                    items@.len(),
                    |j: int|
                        if 0 <= j < items@.len() {
                            redis_view(items@[j])
                        } else {
                            RedisValueView::Nil
                        },
                );
                let mut out = owned("Array([");
                let mut i: usize = 0;
                while i < items.len()
                    invariant
                        i <= items@.len(),
                        *self == RedisValue::Array(*items),
                        iv.len() == items@.len(),
                        forall|j: int| 0 <= j < items@.len() ==> #[trigger] iv[j] == items@[j]@,
                        out@ == "Array(["@ + items_debug(iv, i as nat),
                    decreases items@.len() - i,
                {
                    proof {
                        assert(decreases_to!(*self => (*self)->Array_0));
                        assert((*self)->Array_0 == *items);
                        vstd::std_specs::vec::axiom_vec_index_decreases(*items, i as int);
                        assert(decreases_to!(*self => items[i as int]));
                    }
                    let item = items[i].debug_string();
                    let ghost before = out@;
                    if i > 0 {
                        append(&mut out, ", ");
                    }
                    append(&mut out, item.as_str());
                    proof {
                        assert(iv[i as int] == items@[i as int]@);
                        assert(out@ =~= "Array(["@ + items_debug(iv, (i + 1) as nat));
                    }
                    i = i + 1;
                }
                append(&mut out, "])");
                proof {
                    let sv = self@->Array_0;
                    assert(sv.len() == iv.len());
                    assert forall|j: int| 0 <= j < sv.len() implies sv[j] == iv[j] by {
                        assert(sv[j] == redis_view(items@[j]));
                    }
                    assert(sv =~= iv);
                }
                out
            },
        }
    }
}

// ---------------------------------------------------------------------------
// The client
// ---------------------------------------------------------------------------

/// One request a client handed its transport, with what came back.
pub type Exchange = (Seq<u8>, Result<Seq<u8>, ClientErrorView>);

/// How a client reaches a server: it hands over the bytes of a command and
/// gets back the bytes of the response, or fails.
pub trait RpcTransport {
    fn request(&mut self, payload: &[u8]) -> Result<Vec<u8>, ClientError>;
}

/// The models of a bytes-or-error result.
pub open spec fn reply_view(r: Result<Vec<u8>, ClientError>) -> Result<Seq<u8>, ClientErrorView> {
    match r {
        Ok(b) => Ok(b@),
        Err(e) => Err(e@),
    }
}

/// What a client makes of what its transport returned: a transport error
/// as it is, otherwise the decoded response as `response_redis` reads it.
pub open spec fn reply_value(reply: Result<Seq<u8>, ClientErrorView>) -> Result<RedisValueView, ClientErrorView> {
    match reply {
        Err(e) => Err(e),
        Ok(b) => match spec_decode_response(b) {
            Err(e) => Err(ClientErrorView::Codec(e)),
            Ok(f) => response_redis(f),
        },
    }
}

/// Turns what a transport returned into the value a client sees.
pub fn reply_to_value(reply: Result<Vec<u8>, ClientError>) -> (r: Result<RedisValue, ClientError>)
    ensures
        redis_result(r) == reply_value(reply_view(reply)),
{
    match reply {
        Err(e) => Err(e),
        Ok(bytes) => match decode_response(bytes.as_slice()) {
            Err(e) => Err(ClientError::Codec(e)),
            Ok(frame) => response_to_redis_value(frame),
        },
    }
}

/// Whether a client's record of requests went from `before` to `after` by
/// sending the given command: nothing is handed to the transport where the
/// command cannot be encoded, otherwise exactly one request, which carries
/// its encoding.
pub open spec fn sent_through(before: Seq<Exchange>, after: Seq<Exchange>, parts: Seq<WireValueView>) -> bool {
    match spec_encode_command(parts) {
        Err(_) => after == before,
        Ok(request) => after.len() == before.len() + 1 && after == before.push((request, after.last().1)),
    }
}

/// What sending the command gives back: where it cannot be encoded, the
/// codec error; otherwise what the reply of its request makes of it.
pub open spec fn sent_outcome(after: Seq<Exchange>, parts: Seq<WireValueView>) -> Result<RedisValueView, ClientErrorView> {
    match spec_encode_command(parts) {
        Err(e) => Err(ClientErrorView::Codec(e)),
        Ok(_) => reply_value(after.last().1),
    }
}

/// The bytes of `OK`.
pub open spec fn ok_bytes() -> Seq<u8> {
    seq![79u8, 75u8]
}

/// Whether a reply is the given status word.
pub open spec fn is_word(v: RedisValueView, word: Seq<u8>) -> bool {
    v == RedisValueView::Bytes(word)
}

/// Whether a result is the given status word; errors pass through.
pub open spec fn word_outcome(r: Result<RedisValueView, ClientErrorView>, word: Seq<u8>) -> Result<bool, ClientErrorView> {
    match r {
        Err(e) => Err(e),
        Ok(v) => Ok(is_word(v, word)),
    }
}

/// A reply that holds bytes or nothing: nil as `None`, anything else an
/// unexpected response named after the command.
pub open spec fn optional_outcome(r: Result<RedisValueView, ClientErrorView>, command: Seq<char>) -> Result<Option<Seq<u8>>, ClientErrorView> {
    match r {
        Err(e) => Err(e),
        Ok(RedisValueView::Nil) => Ok(None),
        Ok(RedisValueView::Bytes(b)) => Ok(Some(b)),
        Ok(other) => Err(ClientErrorView::Unexpected(command + " returned "@ + debug_text(other))),
    }
}

/// The first item of a list that does not hold bytes.
pub open spec fn first_non_bytes(items: Seq<RedisValueView>) -> int {
    choose|i: int|
        0 <= i < items.len() && !(items[i] is Bytes) && forall|j: int| 0 <= j < i ==> #[trigger] items[j] is Bytes
}

/// A reply to `KEYS`: a list of byte strings.
pub open spec fn keys_outcome(r: Result<RedisValueView, ClientErrorView>) -> Result<Seq<Seq<u8>>, ClientErrorView> {
    match r {
        Err(e) => Err(e),
        Ok(RedisValueView::Array(items)) => if forall|i: int| 0 <= i < items.len() ==> #[trigger] items[i] is Bytes {
            Ok(Seq::new(items.len(), |i: int| items[i]->Bytes_0))
        } else {
            Err(ClientErrorView::Unexpected("KEYS item "@ + debug_text(items[first_non_bytes(items)])))
        },
        Ok(other) => Err(ClientErrorView::Unexpected("KEYS returned "@ + debug_text(other))),
    }
}

/// The models of results of other types.
pub open spec fn bool_result(r: Result<bool, ClientError>) -> Result<bool, ClientErrorView> {
    match r {
        Ok(b) => Ok(b),
        Err(e) => Err(e@),
    }
}

pub open spec fn optional_result(r: Result<Option<Vec<u8>>, ClientError>) -> Result<Option<Seq<u8>>, ClientErrorView> {
    match r {
        Ok(Some(b)) => Ok(Some(b@)),
        Ok(None) => Ok(None),
        Err(e) => Err(e@),
    }
}

pub open spec fn list_result(r: Result<Vec<Vec<u8>>, ClientError>) -> Result<Seq<Seq<u8>>, ClientErrorView> {
    match r {
        Ok(v) => Ok(Seq::new(v@.len(), |i: int| v@[i]@)),
        Err(e) => Err(e@),
    }
}

fn is_word_value(v: &RedisValue, word: &[u8]) -> (r: bool)
    ensures
        r == is_word(v@, word@),
{
    match v {
        RedisValue::Bytes(b) => {
            if b.len() != word.len() {
                return false;
            }
            let mut i: usize = 0;
            while i < b.len()
                invariant
                    i <= b@.len(),
                    *v == RedisValue::Bytes(*b),
                    b@.len() == word@.len(),
                    forall|j: int| 0 <= j < i ==> b@[j] == word@[j],
                decreases b@.len() - i,
            {
                if b[i] != word[i] {
                    proof {
                        assert(b@ != word@);
                    }
                    return false;
                }
                i = i + 1;
            }
            proof {
                assert(b@ =~= word@);
            }
            true
        },
        _ => false,
    }
}

fn optional_bytes(r: Result<RedisValue, ClientError>, command: &str) -> (o: Result<Option<Vec<u8>>, ClientError>)
    ensures
        optional_result(o) == optional_outcome(redis_result(r), command@),
{
    match r {
        Err(e) => Err(e),
        Ok(RedisValue::Nil) => Ok(None),
        Ok(RedisValue::Bytes(b)) => Ok(Some(b)),
        Ok(other) => {
            let mut m = owned(command);
            append(&mut m, " returned ");
            append(&mut m, other.debug_string().as_str());
            Err(ClientError::Unexpected(m))
        },
    }
}

fn key_list(r: Result<RedisValue, ClientError>) -> (o: Result<Vec<Vec<u8>>, ClientError>)
    ensures
        list_result(o) == keys_outcome(redis_result(r)),
{
    match r {
        Err(e) => Err(e),
        Ok(RedisValue::Array(items)) => {
            let ghost iv = redis_view(RedisValue::Array(items))->Array_0;
            let ghost rr = redis_result(r);
            assert(rr == Ok::<RedisValueView, ClientErrorView>(RedisValueView::Array(iv)));
            proof {
                assert forall|j: int| 0 <= j < items@.len() implies #[trigger] iv[j] == items@[j]@ by {}
            }
            let mut out: Vec<Vec<u8>> = Vec::new();
            let mut i: usize = 0;
            while i < items.len()
                invariant
                    i <= items@.len(),
                    iv.len() == items@.len(),
                    forall|j: int| 0 <= j < items@.len() ==> #[trigger] iv[j] == items@[j]@,
                    out@.len() == i,
                    forall|j: int| 0 <= j < i ==> #[trigger] iv[j] is Bytes && out@[j]@ == iv[j]->Bytes_0,
                    rr == Ok::<RedisValueView, ClientErrorView>(RedisValueView::Array(iv)),
                    rr == redis_result(r),
                decreases items@.len() - i,
            {
                match &items[i] {
                    RedisValue::Bytes(b) => {
                        out.push(b.clone());
                    },
                    other => {
                        proof {
                            assert(!(iv[i as int] is Bytes));
                            assert(!(forall|j: int| 0 <= j < iv.len() ==> #[trigger] iv[j] is Bytes));
                            let f = first_non_bytes(iv);
                            assert(0 <= i < iv.len() && !(iv[i as int] is Bytes) && forall|j: int|
                                0 <= j < i ==> #[trigger] iv[j] is Bytes);
                            assert(0 <= f < iv.len() && !(iv[f] is Bytes) && forall|j: int|
                                0 <= j < f ==> #[trigger] iv[j] is Bytes);
                            if f < i {
                                assert(iv[f] is Bytes);
                            }
                            if i < f {
                                assert(iv[i as int] is Bytes);
                            }
                            assert(f == i);
                        }
                        let mut m = owned("KEYS item ");
                        append(&mut m, other.debug_string().as_str());
                        return Err(ClientError::Unexpected(m));
                    },
                }
                i = i + 1;
            }
            proof {
                assert(Seq::new(out@.len(), |j: int| out@[j]@) =~= Seq::new(iv.len(), |j: int| iv[j]->Bytes_0));
            }
            Ok(out)
        },
        Ok(other) => {
            let mut m = owned("KEYS returned ");
            append(&mut m, other.debug_string().as_str());
            Err(ClientError::Unexpected(m))
        },
    }
}

/// A client that sends commands through a transport. Its model is the
/// record of the requests it has handed the transport, oldest first, each
/// with what came back.
pub struct DirectClient<T> {
    transport: T,
    log: Ghost<Seq<Exchange>>,
}

impl<T> DirectClient<T> {
    /// The transport the client sends its commands through.
    pub closed spec fn transport_used(&self) -> T {
        self.transport
    }

    /// The requests handed to the transport so far, with their replies.
    pub closed spec fn exchanges(&self) -> Seq<Exchange> {
        self.log@
    }
}

impl<T: RpcTransport> DirectClient<T> {
    /// A client that sends its commands through the given transport.
    pub fn new(transport: T) -> (c: Self)
        ensures
            c.transport_used() == transport,
            c.exchanges() == Seq::<Exchange>::empty(),
    {
        DirectClient { transport, log: Ghost(Seq::empty()) }
    }

    /// Hands one request to the transport and records it with its reply.
    fn carry(&mut self, payload: &[u8]) -> (r: Result<Vec<u8>, ClientError>)
        ensures
            final(self).exchanges() == old(self).exchanges().push((payload@, reply_view(r))),
    {
        let r = self.transport.request(payload);
        proof {
            self.log@ = self.log@.push((payload@, reply_view(r)));
        }
        r
    }

    /// Sends a command and reads the reply.
    pub fn execute(&mut self, parts: Vec<WireValue>) -> (r: Result<RedisValue, ClientError>)
        ensures
            sent_through(old(self).exchanges(), final(self).exchanges(), values_view(parts@)),
            redis_result(r) == sent_outcome(final(self).exchanges(), values_view(parts@)),
    {
        let request = match encode_command(parts) {
            Ok(b) => b,
            Err(e) => return Err(ClientError::Codec(e)),
        };
        let reply = self.carry(request.as_slice());
        let ghost rv = reply_view(reply);
        let r = reply_to_value(reply);
        assert(redis_result(r) == reply_value(rv));
        r
    }

    /// `PING`: whether the server answers `PONG`.
    pub fn ping(&mut self) -> (r: Result<bool, ClientError>)
        ensures
            sent_through(old(self).exchanges(), final(self).exchanges(), word_parts("PING"@)),
            bool_result(r) == word_outcome(sent_outcome(final(self).exchanges(), word_parts("PING"@)), pong_bytes()),
    {
        let parts = vec![str_value("PING")];
        proof {
            assert(values_view(parts@) =~= word_parts("PING"@));
        }
        let v = self.execute(parts);
        let pong: &[u8] = &[80u8, 79u8, 78u8, 71u8];
        assert(pong@ =~= pong_bytes());
        match v {
            Ok(x) => Ok(is_word_value(&x, pong)),
            Err(e) => Err(e),
        }
    }

    /// `SET key value`: whether the server answers `OK`.
    pub fn set_bytes(&mut self, key: WireValue, value: Vec<u8>) -> (r: Result<bool, ClientError>)
        ensures
            sent_through(old(self).exchanges(), final(self).exchanges(), set_parts(key@, value@)),
            bool_result(r) == word_outcome(sent_outcome(final(self).exchanges(), set_parts(key@, value@)), ok_bytes()),
    {
        let ghost kv = key@;
        let ghost bv = value@;
        let parts = vec![str_value("SET"), key, WireValue::Bytes(value)];
        proof {
            assert(values_view(parts@) =~= set_parts(kv, bv));
        }
        let v = self.execute(parts);
        let ok: &[u8] = &[79u8, 75u8];
        assert(ok@ =~= ok_bytes());
        match v {
            Ok(x) => Ok(is_word_value(&x, ok)),
            Err(e) => Err(e),
        }
    }

    /// `GET key`: the value's bytes, or `None`.
    pub fn get_bytes(&mut self, key: WireValue) -> (r: Result<Option<Vec<u8>>, ClientError>)
        ensures
            sent_through(old(self).exchanges(), final(self).exchanges(), keyed_parts("GET"@, key@)),
            optional_result(r) == optional_outcome(sent_outcome(final(self).exchanges(), keyed_parts("GET"@, key@)), "GET"@),
    {
        let ghost kv = key@;
        let parts = vec![str_value("GET"), key];
        proof {
            assert(values_view(parts@) =~= keyed_parts("GET"@, kv));
        }
        let v = self.execute(parts);
        optional_bytes(v, "GET")
    }

    /// `KEYS pattern`: the matching keys' bytes.
    pub fn keys(&mut self, pattern: WireValue) -> (r: Result<Vec<Vec<u8>>, ClientError>)
        ensures
            sent_through(old(self).exchanges(), final(self).exchanges(), keyed_parts("KEYS"@, pattern@)),
            list_result(r) == keys_outcome(sent_outcome(final(self).exchanges(), keyed_parts("KEYS"@, pattern@))),
    {
        let ghost kv = pattern@;
        let parts = vec![str_value("KEYS"), pattern];
        proof {
            assert(values_view(parts@) =~= keyed_parts("KEYS"@, kv));
        }
        let v = self.execute(parts);
        key_list(v)
    }

    /// `DUMP key`: the dump payload, or `None`.
    pub fn dump(&mut self, key: WireValue) -> (r: Result<Option<Vec<u8>>, ClientError>)
        ensures
            sent_through(old(self).exchanges(), final(self).exchanges(), keyed_parts("DUMP"@, key@)),
            optional_result(r) == optional_outcome(sent_outcome(final(self).exchanges(), keyed_parts("DUMP"@, key@)), "DUMP"@),
    {
        let ghost kv = key@;
        let parts = vec![str_value("DUMP"), key];
        proof {
            assert(values_view(parts@) =~= keyed_parts("DUMP"@, kv));
        }
        let v = self.execute(parts);
        optional_bytes(v, "DUMP")
    }

    /// `JSON.SET key $ json`, with the document sent in compact form:
    /// whether the server answers `OK`. Text that is not JSON is refused
    /// before anything is sent.
    pub fn set_json(&mut self, key: WireValue, json: &str) -> (r: Result<bool, ClientError>)
        ensures
            json_compact(json@) is None ==> final(self).exchanges() == old(self).exchanges() && bool_result(r)
                == Err::<bool, ClientErrorView>(ClientErrorView::Json(json_error(json@))),
            json_compact(json@) is Some ==> {
                let parts = json_set_parts(key@, json_compact(json@)->Some_0);
                &&& sent_through(old(self).exchanges(), final(self).exchanges(), parts)
                &&& bool_result(r) == word_outcome(sent_outcome(final(self).exchanges(), parts), ok_bytes())
            },
    {
        let ghost kv = key@;
        let text = match compact_json(json) {
            Ok(c) => c,
            Err(e) => return Err(ClientError::Json(e)),
        };
        let ghost cv = text@;
        let parts = vec![str_value("JSON.SET"), key, str_value("$"), WireValue::Str(text)];
        proof {
            assert(values_view(parts@) =~= json_set_parts(kv, cv));
        }
        let v = self.execute(parts);
        let ok: &[u8] = &[79u8, 75u8];
        assert(ok@ =~= ok_bytes());
        match v {
            Ok(x) => Ok(is_word_value(&x, ok)),
            Err(e) => Err(e),
        }
    }

    /// `JSON.GET key $`: the document in compact form, or `None`.
    pub fn get_json(&mut self, key: WireValue) -> (r: Result<Option<String>, ClientError>)
        ensures
            sent_through(old(self).exchanges(), final(self).exchanges(), json_get_parts(key@)),
            text_result(r) == json_get_outcome(sent_outcome(final(self).exchanges(), json_get_parts(key@))),
    {
        let ghost kv = key@;
        let parts = vec![str_value("JSON.GET"), key, str_value("$")];
        proof {
            assert(values_view(parts@) =~= json_get_parts(kv));
        }
        let v = self.execute(parts);
        match v {
            Err(e) => Err(e),
            Ok(RedisValue::Nil) => Ok(None),
            Ok(RedisValue::Bytes(b)) => match compact_json_bytes(b.as_slice()) {
                Ok(c) => Ok(Some(c)),
                Err(m) => Err(ClientError::Json(m)),
            },
            Ok(other) => {
                let mut m = owned("JSON.GET returned ");
                append(&mut m, other.debug_string().as_str());
                Err(ClientError::Unexpected(m))
            },
        }
    }

    /// `LOAD key payload [NX] [XX]`: whether the server answers `OK`.
    pub fn load(&mut self, key: WireValue, payload: Vec<u8>, nx: bool, xx: bool) -> (r: Result<bool, ClientError>)
        ensures
            sent_through(old(self).exchanges(), final(self).exchanges(), load_parts(key@, payload@, nx, xx)),
            bool_result(r) == word_outcome(sent_outcome(final(self).exchanges(), load_parts(key@, payload@, nx, xx)), ok_bytes()),
    {
        let ghost kv = key@;
        let ghost bv = payload@;
        let mut parts = vec![str_value("LOAD"), key, WireValue::Bytes(payload)];
        proof {
            assert(values_view(parts@) =~= seq![WireValueView::Str("LOAD"@), kv, WireValueView::Bytes(bv)]);
        }
        if nx {
            let ghost before = parts@;
            parts.push(str_value("NX"));
            proof {
                assert(values_view(parts@) =~= values_view(before).push(WireValueView::Str("NX"@)));
            }
        }
        if xx {
            let ghost before = parts@;
            parts.push(str_value("XX"));
            proof {
                assert(values_view(parts@) =~= values_view(before).push(WireValueView::Str("XX"@)));
            }
        }
        proof {
            assert(values_view(parts@) =~= load_parts(kv, bv, nx, xx));
        }
        let v = self.execute(parts);
        let ok: &[u8] = &[79u8, 75u8];
        assert(ok@ =~= ok_bytes());
        match v {
            Ok(x) => Ok(is_word_value(&x, ok)),
            Err(e) => Err(e),
        }
    }
}

/// The parts of `JSON.GET key $`.
pub open spec fn json_get_parts(key: WireValueView) -> Seq<WireValueView> {
    seq![WireValueView::Str("JSON.GET"@), key, WireValueView::Str("$"@)]
}

/// The parts of `JSON.SET key $ json`.
pub open spec fn json_set_parts(key: WireValueView, json: Seq<char>) -> Seq<WireValueView> {
    seq![WireValueView::Str("JSON.SET"@), key, WireValueView::Str("$"@), WireValueView::Str(json)]
}

/// A reply to `JSON.GET`: nil as `None`, bytes as the compact form of the
/// JSON they hold (or the JSON error), anything else an unexpected reply.
pub open spec fn json_get_outcome(r: Result<RedisValueView, ClientErrorView>) -> Result<Option<Seq<char>>, ClientErrorView> {
    match r {
        Err(e) => Err(e),
        Ok(RedisValueView::Nil) => Ok(None),
        Ok(RedisValueView::Bytes(b)) => match json_compact_bytes(b) {
            Some(c) => Ok(Some(c)),
            None => Err(ClientErrorView::Json(json_bytes_error(b))),
        },
        Ok(other) => Err(ClientErrorView::Unexpected("JSON.GET returned "@ + debug_text(other))),
    }
}

/// The models of an optional-text result.
pub open spec fn text_result(r: Result<Option<String>, ClientError>) -> Result<Option<Seq<char>>, ClientErrorView> {
    match r {
        Ok(Some(t)) => Ok(Some(t@)),
        Ok(None) => Ok(None),
        Err(e) => Err(e@),
    }
}

/// A command of one word.
pub open spec fn word_parts(name: Seq<char>) -> Seq<WireValueView> {
    seq![WireValueView::Str(name)]
}

/// A command with one key.
pub open spec fn keyed_parts(name: Seq<char>, key: WireValueView) -> Seq<WireValueView> {
    seq![WireValueView::Str(name), key]
}

/// The parts of a `SET` command.
pub open spec fn set_parts(key: WireValueView, value: Seq<u8>) -> Seq<WireValueView> {
    seq![WireValueView::Str("SET"@), key, WireValueView::Bytes(value)]
}

/// The parts of a `LOAD` command.
pub open spec fn load_parts(key: WireValueView, payload: Seq<u8>, nx: bool, xx: bool) -> Seq<WireValueView> {
    let base = seq![WireValueView::Str("LOAD"@), key, WireValueView::Bytes(payload)];
    let with_nx = if nx {
        base.push(WireValueView::Str("NX"@))
    } else {
        base
    };
    if xx {
        with_nx.push(WireValueView::Str("XX"@))
    } else {
        with_nx
    }
}

} // verus!
