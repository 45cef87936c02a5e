//! The binary frame format.
//!
//! Every frame starts with `IX2R | version:u8 | frame_type:u8`. Command frames
//! continue with `command_len:u16 | argc:u16 | command:utf8 | value...`, and
//! response frames with `kind:u8 | payload`. Integers are big-endian; a value
//! is a tag byte (`0` none, `1` bytes, `2` UTF-8 string, `3` JSON text)
//! followed, except for none, by a `u32` length and that many bytes.

use vstd::prelude::*;
use vstd::utf8::*;
use crate::text::{
    append, debug_quote, debug_quoted, from_utf8_lossy, int_text, i64_text, lossy_utf8, nat_text,
    owned, string_from_utf8, to_upper, u64_text, upper_case, utf8_bytes, utf8_error_text,
};

verus! {

broadcast use {encode_utf8_valid_utf8, encode_utf8_decode_utf8};

pub const PROTOCOL_VERSION: u8 = 1;
pub const FRAME_COMMAND: u8 = 1;
pub const FRAME_RESPONSE: u8 = 2;
pub const TAG_NONE: u8 = 0;
pub const TAG_BYTES: u8 = 1;
pub const TAG_STR: u8 = 2;
pub const TAG_JSON: u8 = 3;

/// The four magic bytes `IX2R` that open every frame.
pub open spec fn magic() -> Seq<u8> {
    seq![73u8, 88u8, 50u8, 82u8]
}

// ---------------------------------------------------------------------------
// Errors
// ---------------------------------------------------------------------------

#[derive(Debug, PartialEq, Eq)]
pub enum CodecError {
    Truncated,
    InvalidMagic,
    UnsupportedVersion(u8),
    UnexpectedFrameType(u8),
    MissingCommand,
    CommandTooLong,
    TooManyArgs,
    UnknownValueTag(u8),
    UnknownResponseKind(u8),
    TrailingBytes,
    Utf8(String),
}

/// The mathematical model of a [`CodecError`].
pub enum CodecErrorView {
    Truncated,
    InvalidMagic,
    UnsupportedVersion(u8),
    UnexpectedFrameType(u8),
    MissingCommand,
    CommandTooLong,
    TooManyArgs,
    UnknownValueTag(u8),
    UnknownResponseKind(u8),
    TrailingBytes,
    Utf8(Seq<char>),
}

impl View for CodecError {
    type V = CodecErrorView;

    open spec fn view(&self) -> CodecErrorView {
        match self {
            CodecError::Truncated => CodecErrorView::Truncated,
            CodecError::InvalidMagic => CodecErrorView::InvalidMagic,
            CodecError::UnsupportedVersion(v) => CodecErrorView::UnsupportedVersion(*v),
            CodecError::UnexpectedFrameType(v) => CodecErrorView::UnexpectedFrameType(*v),
            CodecError::MissingCommand => CodecErrorView::MissingCommand,
            CodecError::CommandTooLong => CodecErrorView::CommandTooLong,
            CodecError::TooManyArgs => CodecErrorView::TooManyArgs,
            CodecError::UnknownValueTag(v) => CodecErrorView::UnknownValueTag(*v),
            CodecError::UnknownResponseKind(v) => CodecErrorView::UnknownResponseKind(*v),
            CodecError::TrailingBytes => CodecErrorView::TrailingBytes,
            CodecError::Utf8(m) => CodecErrorView::Utf8(m@),
        }
    }
}

/// The text of an error as `{:?}` prints it (its `Display` form as well).
pub open spec fn codec_error_text(e: CodecErrorView) -> Seq<char> {
    match e {
        CodecErrorView::Truncated => "Truncated"@,
        CodecErrorView::InvalidMagic => "InvalidMagic"@,
        CodecErrorView::UnsupportedVersion(v) => "UnsupportedVersion"@ + "("@ + nat_text(v as nat)
            + ")"@,
        CodecErrorView::UnexpectedFrameType(v) => "UnexpectedFrameType"@ + "("@ + nat_text(v as nat)
            + ")"@,
        CodecErrorView::MissingCommand => "MissingCommand"@,
        CodecErrorView::CommandTooLong => "CommandTooLong"@,
        CodecErrorView::TooManyArgs => "TooManyArgs"@,
        CodecErrorView::UnknownValueTag(v) => "UnknownValueTag"@ + "("@ + nat_text(v as nat) + ")"@,
        CodecErrorView::UnknownResponseKind(v) => "UnknownResponseKind"@ + "("@ + nat_text(v as nat)
            + ")"@,
        CodecErrorView::TrailingBytes => "TrailingBytes"@,
        CodecErrorView::Utf8(m) => "Utf8("@ + debug_quoted(m) + ")"@,
    }
}

fn number_in_parens(name: &str, v: u8) -> (r: String)
    ensures
        r@ == name@ + "("@ + nat_text(v as nat) + ")"@,
{
    let mut r = owned(name);
    append(&mut r, "(");
    let digits = u64_text(v as u64);
    append(&mut r, digits.as_str());
    append(&mut r, ")");
    r
}

impl CodecError {
    /// The error as `{:?}` (and `Display`) prints it.
    pub fn text(&self) -> (r: String)
        ensures
            r@ == codec_error_text(self@),
    {
        match self {
            CodecError::Truncated => owned("Truncated"),
            CodecError::InvalidMagic => owned("InvalidMagic"),
            CodecError::UnsupportedVersion(v) => number_in_parens("UnsupportedVersion", *v),
            CodecError::UnexpectedFrameType(v) => number_in_parens("UnexpectedFrameType", *v),
            CodecError::MissingCommand => owned("MissingCommand"),
            CodecError::CommandTooLong => owned("CommandTooLong"),
            CodecError::TooManyArgs => owned("TooManyArgs"),
            CodecError::UnknownValueTag(v) => number_in_parens("UnknownValueTag", *v),
            CodecError::UnknownResponseKind(v) => number_in_parens("UnknownResponseKind", *v),
            CodecError::TrailingBytes => owned("TrailingBytes"),
            CodecError::Utf8(m) => {
                let mut r = owned("Utf8(");
                let q = debug_quote(m.as_str());
                append(&mut r, q.as_str());
                append(&mut r, ")");
                r
            },
        }
    }
}

// ---------------------------------------------------------------------------
// Values
// ---------------------------------------------------------------------------

#[derive(Clone, Debug, PartialEq, Eq)]
pub enum WireValue {
    Null,
    Bytes(Vec<u8>),
    Str(String),
    /// Raw JSON text, carried with its own tag.
    Json(String),
}

/// The mathematical model of a [`WireValue`].
pub enum WireValueView {
    Null,
    Bytes(Seq<u8>),
    Str(Seq<char>),
    Json(Seq<char>),
}

impl View for WireValue {
    type V = WireValueView;

    open spec fn view(&self) -> WireValueView {
        match self {
            WireValue::Null => WireValueView::Null,
            WireValue::Bytes(b) => WireValueView::Bytes(b@),
            WireValue::Str(s) => WireValueView::Str(s@),
            WireValue::Json(s) => WireValueView::Json(s@),
        }
    }
}

/// The text a value stands for when it is used as a key or an option name:
/// bytes are read as UTF-8, with invalid sequences replaced.
pub open spec fn lossy_key(v: WireValueView) -> Seq<char> {
    match v {
        WireValueView::Null => Seq::empty(),
        WireValueView::Bytes(b) => lossy_utf8(b),
        WireValueView::Str(s) => s,
        WireValueView::Json(s) => s,
    }
}

/// The bytes a value carries; a none value carries none.
pub open spec fn value_bytes(v: WireValueView) -> Option<Seq<u8>> {
    match v {
        WireValueView::Null => None,
        WireValueView::Bytes(b) => Some(b),
        WireValueView::Str(s) => Some(encode_utf8(s)),
        WireValueView::Json(s) => Some(encode_utf8(s)),
    }
}

/// A value without its `None` variant: `None` stands for "absent".
pub open spec fn present(v: WireValueView) -> Option<WireValueView> {
    match v {
        WireValueView::Null => None,
        _ => Some(v),
    }
}

impl WireValue {
    /// The text this value stands for as a key.
    pub fn as_lossy_key(&self) -> (r: String)
        ensures
            r@ == lossy_key(self@),
            self@ is Bytes && valid_utf8(self@->Bytes_0) ==> r@ == decode_utf8(self@->Bytes_0),
    {
        match self {
            WireValue::Null => String::new(),
            WireValue::Bytes(b) => from_utf8_lossy(b.as_slice()),
            WireValue::Str(s) => s.clone(),
            WireValue::Json(s) => s.clone(),
        }
    }

    /// The bytes this value carries.
    pub fn to_bytes(&self) -> (r: Option<Vec<u8>>)
        ensures
            match r {
                Some(b) => value_bytes(self@) == Some(b@),
                None => value_bytes(self@) is None,
            },
    {
        match self {
            WireValue::Null => None,
            WireValue::Bytes(b) => Some(b.clone()),
            WireValue::Str(s) => Some(utf8_bytes(s.as_str())),
            WireValue::Json(s) => Some(utf8_bytes(s.as_str())),
        }
    }

    /// A copy of this value.
    pub fn duplicate(&self) -> (r: WireValue)
        ensures
            r@ == self@,
    {
        match self {
            WireValue::Null => WireValue::Null,
            WireValue::Bytes(b) => WireValue::Bytes(b.clone()),
            WireValue::Str(s) => WireValue::Str(s.clone()),
            WireValue::Json(s) => WireValue::Json(s.clone()),
        }
    }

    /// Whether this is the none value.
    pub fn is_none(&self) -> (r: bool)
        ensures
            r == (self@ is Null),
    {
        match self {
            WireValue::Null => true,
            _ => false,
        }
    }
}

impl vstd::std_specs::convert::FromSpecImpl<&str> for WireValue {
    open spec fn obeys_from_spec() -> bool {
        false
    }

    open spec fn from_spec(v: &str) -> WireValue {
        WireValue::Null
    }
}

impl From<&str> for WireValue {
    /// A string value.
    fn from(v: &str) -> (r: WireValue)
        ensures
            r@ == WireValueView::Str(v@),
    {
        WireValue::Str(owned(v))
    }
}

impl vstd::std_specs::convert::FromSpecImpl<String> for WireValue {
    open spec fn obeys_from_spec() -> bool {
        true
    }

    open spec fn from_spec(v: String) -> WireValue {
        WireValue::Str(v)
    }
}

impl From<String> for WireValue {
    /// A string value.
    fn from(v: String) -> (r: WireValue)
        ensures
            r@ == WireValueView::Str(v@),
    {
        WireValue::Str(v)
    }
}

impl vstd::std_specs::convert::FromSpecImpl<&[u8]> for WireValue {
    open spec fn obeys_from_spec() -> bool {
        false
    }

    open spec fn from_spec(v: &[u8]) -> WireValue {
        WireValue::Null
    }
}

impl From<&[u8]> for WireValue {
    /// A bytes value.
    fn from(v: &[u8]) -> (r: WireValue)
        ensures
            r@ == WireValueView::Bytes(v@),
    {
        WireValue::Bytes(vstd::slice::slice_to_vec(v))
    }
}

impl vstd::std_specs::convert::FromSpecImpl<Vec<u8>> for WireValue {
    open spec fn obeys_from_spec() -> bool {
        true
    }

    open spec fn from_spec(v: Vec<u8>) -> WireValue {
        WireValue::Bytes(v)
    }
}

impl From<Vec<u8>> for WireValue {
    /// A bytes value.
    fn from(v: Vec<u8>) -> (r: WireValue)
        ensures
            r@ == WireValueView::Bytes(v@),
    {
        WireValue::Bytes(v)
    }
}

impl vstd::std_specs::convert::FromSpecImpl<i64> for WireValue {
    open spec fn obeys_from_spec() -> bool {
        false
    }

    open spec fn from_spec(v: i64) -> WireValue {
        WireValue::Null
    }
}

impl From<i64> for WireValue {
    /// An integer, carried as its decimal JSON text.
    fn from(v: i64) -> (r: WireValue)
        ensures
            r@ == WireValueView::Json(int_text(v as int)),
    {
        WireValue::Json(i64_text(v))
    }
}

impl vstd::std_specs::convert::FromSpecImpl<i32> for WireValue {
    open spec fn obeys_from_spec() -> bool {
        false
    }

    open spec fn from_spec(v: i32) -> WireValue {
        WireValue::Null
    }
}

impl From<i32> for WireValue {
    /// An integer, carried as its decimal JSON text.
    fn from(v: i32) -> (r: WireValue)
        ensures
            r@ == WireValueView::Json(int_text(v as int)),
    {
        WireValue::Json(i64_text(v as i64))
    }
}

/// A string value holding the given text.
pub fn str_value(s: &str) -> (r: WireValue)
    ensures
        r@ == WireValueView::Str(s@),
{
    WireValue::Str(owned(s))
}

/// An integer value, carried as its decimal JSON text.
pub fn int_value(v: i64) -> (r: WireValue)
    ensures
        r@ == WireValueView::Json(int_text(v as int)),
{
    WireValue::Json(i64_text(v))
}

// ---------------------------------------------------------------------------
// Frames
// ---------------------------------------------------------------------------

#[derive(Clone, Debug, PartialEq, Eq)]
pub struct CommandFrame {
    pub command: String,
    pub args: Vec<WireValue>,
}

/// The mathematical model of a [`CommandFrame`].
pub struct CommandView {
    pub command: Seq<char>,
    pub args: Seq<WireValueView>,
}

/// The models of a list of values.
pub open spec fn values_view(vs: Seq<WireValue>) -> Seq<WireValueView> {
    vs.map_values(|v: WireValue| v@)
}

impl View for CommandFrame {
    type V = CommandView;

    open spec fn view(&self) -> CommandView {
        CommandView { command: self.command@, args: values_view(self.args@) }
    }
}

#[derive(Clone, Copy, Debug, PartialEq, Eq, Structural)]
pub enum ResponseKind {
    Simple,
    Bulk,
    Array,
    Nil,
    Error,
    Integer,
    Pong,
}

#[derive(Clone, Debug, PartialEq, Eq)]
pub struct ResponseFrame {
    pub kind: ResponseKind,
    pub value: Option<WireValue>,
    pub array: Vec<Option<WireValue>>,
    pub message: Option<String>,
}

/// The mathematical model of a [`ResponseFrame`].
pub struct ResponseView {
    pub kind: ResponseKind,
    pub value: Option<WireValueView>,
    pub array: Seq<Option<WireValueView>>,
    pub message: Option<Seq<char>>,
}

/// The model of an optional value.
pub open spec fn opt_view(v: Option<WireValue>) -> Option<WireValueView> {
    match v {
        Some(w) => Some(w@),
        None => None,
    }
}

/// The models of a list of optional values.
pub open spec fn opt_values_view(vs: Seq<Option<WireValue>>) -> Seq<Option<WireValueView>> {
    vs.map_values(|v: Option<WireValue>| opt_view(v))
}

impl View for ResponseFrame {
    type V = ResponseView;

    open spec fn view(&self) -> ResponseView {
        ResponseView {
            kind: self.kind,
            value: opt_view(self.value),
            array: opt_values_view(self.array@),
            message: match self.message {
                Some(m) => Some(m@),
                None => None,
            },
        }
    }
}

/// The model of a response of the given kind that carries one value.
pub open spec fn single(kind: ResponseKind, v: Option<WireValueView>) -> ResponseView {
    ResponseView { kind, value: v, array: Seq::empty(), message: None }
}

/// The model of a simple (status) response.
pub open spec fn simple_view(text: Seq<char>) -> ResponseView {
    single(ResponseKind::Simple, Some(WireValueView::Str(text)))
}

/// The model of a bulk response.
pub open spec fn bulk_view(v: WireValueView) -> ResponseView {
    single(ResponseKind::Bulk, Some(v))
}

/// The model of an array response.
pub open spec fn array_view(items: Seq<Option<WireValueView>>) -> ResponseView {
    ResponseView { kind: ResponseKind::Array, value: None, array: items, message: None }
}

/// The model of the nil response.
pub open spec fn nil_view() -> ResponseView {
    single(ResponseKind::Nil, None)
}

/// The model of an error response.
pub open spec fn error_view(message: Seq<char>) -> ResponseView {
    ResponseView {
        kind: ResponseKind::Error,
        value: None,
        array: Seq::empty(),
        message: Some(message),
    }
}

/// The model of an integer response.
pub open spec fn integer_view(v: int) -> ResponseView {
    single(ResponseKind::Integer, Some(WireValueView::Json(int_text(v))))
}

/// The model of the pong response.
pub open spec fn pong_view() -> ResponseView {
    single(ResponseKind::Pong, None)
}

impl ResponseFrame {
    pub fn simple(value: &str) -> (r: ResponseFrame)
        ensures
            r@ == simple_view(value@),
    {
        let r = ResponseFrame {
            kind: ResponseKind::Simple,
            value: Some(WireValue::Str(owned(value))),
            array: Vec::new(),
            message: None,
        };
        assert(r@.array =~= Seq::<Option<WireValueView>>::empty());
        r
    }

    pub fn bulk(value: WireValue) -> (r: ResponseFrame)
        ensures
            r@ == bulk_view(value@),
    {
        let r = ResponseFrame {
            kind: ResponseKind::Bulk,
            value: Some(value),
            array: Vec::new(),
            message: None,
        };
        assert(r@.array =~= Seq::<Option<WireValueView>>::empty());
        r
    }

    pub fn array(array: Vec<Option<WireValue>>) -> (r: ResponseFrame)
        ensures
            r@ == array_view(opt_values_view(array@)),
    {
        ResponseFrame { kind: ResponseKind::Array, value: None, array, message: None }
    }

    pub fn nil() -> (r: ResponseFrame)
        ensures
            r@ == nil_view(),
    {
        let r = ResponseFrame {
            kind: ResponseKind::Nil,
            value: None,
            array: Vec::new(),
            message: None,
        };
        assert(r@.array =~= Seq::<Option<WireValueView>>::empty());
        r
    }

    pub fn error(message: &str) -> (r: ResponseFrame)
        ensures
            r@ == error_view(message@),
    {
        let r = ResponseFrame {
            kind: ResponseKind::Error,
            value: None,
            array: Vec::new(),
            message: Some(owned(message)),
        };
        assert(r@.array =~= Seq::<Option<WireValueView>>::empty());
        r
    }

    pub fn integer(value: i64) -> (r: ResponseFrame)
        ensures
            r@ == integer_view(value as int),
    {
        let r = ResponseFrame {
            kind: ResponseKind::Integer,
            value: Some(int_value(value)),
            array: Vec::new(),
            message: None,
        };
        assert(r@.array =~= Seq::<Option<WireValueView>>::empty());
        r
    }

    pub fn pong() -> (r: ResponseFrame)
        ensures
            r@ == pong_view(),
    {
        let r = ResponseFrame {
            kind: ResponseKind::Pong,
            value: None,
            array: Vec::new(),
            message: None,
        };
        assert(r@.array =~= Seq::<Option<WireValueView>>::empty());
        r
    }
}

// ---------------------------------------------------------------------------
// Encoding
// ---------------------------------------------------------------------------

/// A 16-bit number in big-endian order.
pub open spec fn be16(n: nat) -> Seq<u8> {
    seq![((n / 256) % 256) as u8, (n % 256) as u8]
}

/// A 32-bit number in big-endian order.
pub open spec fn be32(n: nat) -> Seq<u8> {
    seq![
        ((n / 16777216) % 256) as u8,
        ((n / 65536) % 256) as u8,
        ((n / 256) % 256) as u8,
        (n % 256) as u8,
    ]
}

/// The 16-bit big-endian number at position `p`.
pub open spec fn read16(s: Seq<u8>, p: int) -> nat {
    (s[p] * 256 + s[p + 1]) as nat
}

/// The 32-bit big-endian number at position `p`.
pub open spec fn read32(s: Seq<u8>, p: int) -> nat {
    (((s[p] * 256 + s[p + 1]) * 256 + s[p + 2]) * 256 + s[p + 3]) as nat
}

/// Bytes preceded by their length as a `u32`; a length that does not fit is
/// written modulo 2^32, as the `as u32` conversion does.
pub open spec fn pack(b: Seq<u8>) -> Seq<u8> {
    be32(b.len() % 4294967296) + b
}

/// Whether the bytes of a value fit the `u32` length of the format.
pub open spec fn packable(v: WireValueView) -> bool {
    match value_bytes(v) {
        Some(b) => b.len() < 4294967296,
        None => true,
    }
}

/// The wire form of one value.
pub open spec fn encode_value(v: WireValueView) -> Seq<u8> {
    match v {
        WireValueView::Null => seq![TAG_NONE],
        WireValueView::Bytes(b) => seq![TAG_BYTES] + pack(b),
        WireValueView::Str(s) => seq![TAG_STR] + pack(encode_utf8(s)),
        WireValueView::Json(s) => seq![TAG_JSON] + pack(encode_utf8(s)),
    }
}

/// The wire form of a list of values, one after the other.
pub open spec fn encode_values(vs: Seq<WireValueView>) -> Seq<u8>
    decreases vs.len(),
{
    if vs.len() == 0 {
        Seq::empty()
    } else {
        encode_value(vs[0]) + encode_values(vs.drop_first())
    }
}

/// The header of a frame of the given type.
pub open spec fn frame_header(frame_type: u8) -> Seq<u8> {
    magic() + seq![PROTOCOL_VERSION, frame_type]
}

/// The command name that a command frame carries for the given first part.
pub open spec fn command_name(first: WireValueView) -> Seq<char> {
    upper_case(lossy_key(first))
}

/// The command frame for the given parts: the first part names the command
/// (upper-cased), the others are its arguments.
pub open spec fn spec_encode_command(parts: Seq<WireValueView>) -> Result<Seq<u8>, CodecErrorView> {
    if parts.len() == 0 {
        Err(CodecErrorView::MissingCommand)
    } else {
        let cmd = encode_utf8(command_name(parts[0]));
        let args = parts.drop_first();
        if cmd.len() > 65535 {
            Err(CodecErrorView::CommandTooLong)
        } else if args.len() > 65535 {
            Err(CodecErrorView::TooManyArgs)
        } else {
            Ok(frame_header(FRAME_COMMAND) + be16(cmd.len()) + be16(args.len()) + cmd
                + encode_values(args))
        }
    }
}

/// The kind byte of a response.
pub open spec fn kind_byte(k: ResponseKind) -> u8 {
    match k {
        ResponseKind::Simple => 1,
        ResponseKind::Bulk => 2,
        ResponseKind::Array => 3,
        ResponseKind::Nil => 4,
        ResponseKind::Error => 5,
        ResponseKind::Integer => 6,
        ResponseKind::Pong => 7,
    }
}

/// An optional value, with absence written as the none value.
pub open spec fn or_null(v: Option<WireValueView>) -> WireValueView {
    match v {
        Some(w) => w,
        None => WireValueView::Null,
    }
}

/// The message an error response carries.
pub open spec fn error_message(m: Option<Seq<char>>) -> Seq<char> {
    match m {
        Some(t) => t,
        None => "ERR unknown error"@,
    }
}

/// The payload that follows the kind byte of a response.
pub open spec fn response_payload(f: ResponseView) -> Seq<u8> {
    match f.kind {
        ResponseKind::Nil => Seq::empty(),
        ResponseKind::Error => pack(encode_utf8(error_message(f.message))),
        ResponseKind::Array => be32(f.array.len() % 4294967296) + encode_values(
            f.array.map_values(|o: Option<WireValueView>| or_null(o)),
        ),
        _ => encode_value(or_null(f.value)),
    }
}

/// The response frame for a response.
pub open spec fn spec_encode_response(f: ResponseView) -> Seq<u8> {
    frame_header(FRAME_RESPONSE) + seq![kind_byte(f.kind)] + response_payload(f)
}

/// The model of a result that holds bytes.
pub open spec fn bytes_result(r: Result<Vec<u8>, CodecError>) -> Result<Seq<u8>, CodecErrorView> {
    match r {
        Ok(b) => Ok(b@),
        Err(e) => Err(e@),
    }
}

fn extend_bytes(out: &mut Vec<u8>, b: &[u8])
    ensures
        final(out)@ == old(out)@ + b@,
{
    let mut i: usize = 0;
    while i < b.len()
        invariant
            i <= b@.len(),
            out@ == old(out)@ + b@.subrange(0, i as int),
        decreases b@.len() - i,
    {
        out.push(b[i]);
        proof {
            assert(b@.subrange(0, i + 1) =~= b@.subrange(0, i as int).push(b@[i as int]));
        }
        i = i + 1;
    }
    assert(b@.subrange(0, b@.len() as int) =~= b@);
}

fn push_be16(out: &mut Vec<u8>, n: u16)
    ensures
        final(out)@ == old(out)@ + be16(n as nat),
{
    out.push(((n / 256) % 256) as u8);
    out.push((n % 256) as u8);
    assert(final(out)@ =~= old(out)@ + be16(n as nat));
}

fn push_be32(out: &mut Vec<u8>, n: u32)
    ensures
        final(out)@ == old(out)@ + be32(n as nat),
{
    out.push(((n / 16777216) % 256) as u8);
    out.push(((n / 65536) % 256) as u8);
    out.push(((n / 256) % 256) as u8);
    out.push((n % 256) as u8);
    assert(final(out)@ =~= old(out)@ + be32(n as nat));
}

/// Writes bytes preceded by their `u32` length.
fn pack_into(out: &mut Vec<u8>, b: &[u8])
    ensures
        final(out)@ == old(out)@ + pack(b@),
{
    let n = ((b.len() as u64) % 4294967296) as u32;
    push_be32(out, n);
    extend_bytes(out, b);
    assert(old(out)@ + be32(n as nat) + b@ =~= old(out)@ + pack(b@));
}

fn encode_value_into(out: &mut Vec<u8>, value: &WireValue)
    ensures
        final(out)@ == old(out)@ + encode_value(value@),
{
    match value {
        WireValue::Null => {
            out.push(TAG_NONE);
            assert(final(out)@ =~= old(out)@ + encode_value(value@));
        },
        WireValue::Bytes(b) => {
            out.push(TAG_BYTES);
            pack_into(out, b.as_slice());
            assert(final(out)@ =~= old(out)@ + encode_value(value@));
        },
        WireValue::Str(s) => {
            out.push(TAG_STR);
            pack_into(out, s.as_str().as_bytes());
            assert(final(out)@ =~= old(out)@ + encode_value(value@));
        },
        WireValue::Json(s) => {
            out.push(TAG_JSON);
            pack_into(out, s.as_str().as_bytes());
            assert(final(out)@ =~= old(out)@ + encode_value(value@));
        },
    }
}

/// Writing the values of a list one after the other adds one value's form at
/// a time.
proof fn lemma_encode_values_push(vs: Seq<WireValueView>, v: WireValueView)
    ensures
        encode_values(vs.push(v)) == encode_values(vs) + encode_value(v),
    decreases vs.len(),
{
    if vs.len() == 0 {
        assert(vs.push(v).drop_first() =~= Seq::<WireValueView>::empty());
        assert(vs.push(v)[0] == v);
        assert(encode_values(Seq::<WireValueView>::empty()) == Seq::<u8>::empty());
        assert(encode_values(vs) == Seq::<u8>::empty());
        assert(encode_values(vs.push(v)) == encode_value(v) + encode_values(
            Seq::<WireValueView>::empty(),
        ));
        assert(encode_values(vs.push(v)) =~= encode_values(vs) + encode_value(v));
    } else {
        lemma_encode_values_push(vs.drop_first(), v);
        assert(vs.push(v).drop_first() =~= vs.drop_first().push(v));
        assert(vs.push(v)[0] == vs[0]);
        assert(encode_values(vs.push(v)) == encode_value(vs[0]) + encode_values(
            vs.drop_first().push(v),
        ));
        assert(encode_values(vs.push(v)) =~= encode_values(vs) + encode_value(v));
    }
}

fn encode_values_into(out: &mut Vec<u8>, values: &[WireValue], start: usize)
    requires
        start <= values@.len(),
    ensures
        final(out)@ == old(out)@ + encode_values(
            values_view(values@).subrange(start as int, values@.len() as int),
        ),
{
    let ghost vs = values_view(values@).subrange(start as int, values@.len() as int);
    let mut i: usize = start;
    while i < values.len()
        invariant
            start <= i <= values@.len(),
            vs == values_view(values@).subrange(start as int, values@.len() as int),
            out@ == old(out)@ + encode_values(vs.subrange(0, i - start)),
        decreases values@.len() - i,
    {
        encode_value_into(out, &values[i]);
        proof {
            lemma_encode_values_push(vs.subrange(0, i - start), values@[i as int]@);
            assert(vs.subrange(0, i - start).push(values@[i as int]@) =~= vs.subrange(
                0,
                i + 1 - start,
            ));
        }
        i = i + 1;
    }
    assert(vs.subrange(0, values@.len() - start) =~= vs);
}

/// Encodes a command frame. The first part names the command (upper-cased);
/// the rest are its arguments.
pub fn encode_command(parts: Vec<WireValue>) -> (r: Result<Vec<u8>, CodecError>)
    ensures
        bytes_result(r) == spec_encode_command(values_view(parts@)),
{
    if parts.len() == 0 {
        return Err(CodecError::MissingCommand);
    }
    let key = parts[0].as_lossy_key();
    let command = to_upper(key.as_str());
    let cmd = command.as_str().as_bytes();
    if cmd.len() > 65535 {
        return Err(CodecError::CommandTooLong);
    }
    let argc = parts.len() - 1;
    if argc > 65535 {
        return Err(CodecError::TooManyArgs);
    }
    let mut out: Vec<u8> = Vec::new();
    out.push(73);
    out.push(88);
    out.push(50);
    out.push(82);
    out.push(PROTOCOL_VERSION);
    out.push(FRAME_COMMAND);
    push_be16(&mut out, cmd.len() as u16);
    push_be16(&mut out, argc as u16);
    extend_bytes(&mut out, cmd);
    let ghost before = out@;
    encode_values_into(&mut out, parts.as_slice(), 1);
    proof {
        let pv = values_view(parts@);
        assert(pv.subrange(1, parts@.len() as int) =~= pv.drop_first());
        assert(out@ =~= spec_encode_command(pv)->Ok_0);
    }
    Ok(out)
}

/// Encodes a response frame.
pub fn encode_response(frame: &ResponseFrame) -> (r: Result<Vec<u8>, CodecError>)
    ensures
        bytes_result(r) == Ok::<Seq<u8>, CodecErrorView>(spec_encode_response(frame@)),
{
    let kind: u8 = match frame.kind {
        ResponseKind::Simple => 1,
        ResponseKind::Bulk => 2,
        ResponseKind::Array => 3,
        ResponseKind::Nil => 4,
        ResponseKind::Error => 5,
        ResponseKind::Integer => 6,
        ResponseKind::Pong => 7,
    };
    let mut out: Vec<u8> = Vec::new();
    out.push(73);
    out.push(88);
    out.push(50);
    out.push(82);
    out.push(PROTOCOL_VERSION);
    out.push(FRAME_RESPONSE);
    out.push(kind);
    let ghost head = out@;
    assert(head =~= frame_header(FRAME_RESPONSE) + seq![kind_byte(frame@.kind)]);
    match frame.kind {
        ResponseKind::Nil => {},
        ResponseKind::Error => {
            match &frame.message {
                Some(m) => pack_into(&mut out, m.as_str().as_bytes()),
                None => pack_into(&mut out, "ERR unknown error".as_bytes()),
            }
        },
        ResponseKind::Array => {
            let n = ((frame.array.len() as u64) % 4294967296) as u32;
            push_be32(&mut out, n);
            let ghost items = frame@.array.map_values(|o: Option<WireValueView>| or_null(o));
            let mut i: usize = 0;
            while i < frame.array.len()
                invariant
                    i <= frame.array@.len(),
                    items == frame@.array.map_values(|o: Option<WireValueView>| or_null(o)),
                    items.len() == frame.array@.len(),
                    out@ == head + be32(n as nat) + encode_values(items.subrange(0, i as int)),
                decreases frame.array@.len() - i,
            {
                match &frame.array[i] {
                    Some(v) => encode_value_into(&mut out, v),
                    None => out.push(TAG_NONE),
                }
                proof {
                    assert(items[i as int] == or_null(opt_view(frame.array@[i as int])));
                    lemma_encode_values_push(items.subrange(0, i as int), items[i as int]);
                    assert(items.subrange(0, i as int).push(items[i as int]) =~= items.subrange(
                        0,
                        i + 1,
                    ));
                    assert(encode_value(WireValueView::Null) =~= seq![TAG_NONE]);
                }
                i = i + 1;
            }
            assert(items.subrange(0, items.len() as int) =~= items);
        },
        _ => {
            match &frame.value {
                Some(v) => encode_value_into(&mut out, v),
                None => {
                    out.push(TAG_NONE);
                    assert(encode_value(WireValueView::Null) =~= seq![TAG_NONE]);
                },
            }
        },
    }
    assert(out@ =~= spec_encode_response(frame@));
    Ok(out)
}

// ---------------------------------------------------------------------------
// Decoding
// ---------------------------------------------------------------------------

/// Checks the frame header; on success gives the position after it.
pub open spec fn read_header(s: Seq<u8>, expected: u8) -> Result<int, CodecErrorView> {
    if s.len() < 4 {
        Err(CodecErrorView::Truncated)
    } else if s.subrange(0, 4) != magic() {
        Err(CodecErrorView::InvalidMagic)
    } else if s.len() < 5 {
        Err(CodecErrorView::Truncated)
    } else if s[4] != PROTOCOL_VERSION {
        Err(CodecErrorView::UnsupportedVersion(s[4]))
    } else if s.len() < 6 {
        Err(CodecErrorView::Truncated)
    } else if s[5] != expected {
        Err(CodecErrorView::UnexpectedFrameType(s[5]))
    } else {
        Ok(6)
    }
}

/// Reads bytes preceded by their `u32` length at position `p`.
pub open spec fn read_len_prefixed(s: Seq<u8>, p: int) -> Result<(Seq<u8>, int), CodecErrorView> {
    if p + 4 > s.len() {
        Err(CodecErrorView::Truncated)
    } else if p + 4 + read32(s, p) > s.len() {
        Err(CodecErrorView::Truncated)
    } else {
        Ok((s.subrange(p + 4, p + 4 + read32(s, p)), p + 4 + read32(s, p)))
    }
}

/// The text that UTF-8 bytes encode.
pub open spec fn text_of(b: Seq<u8>) -> Result<Seq<char>, CodecErrorView> {
    if valid_utf8(b) {
        Ok(decode_utf8(b))
    } else {
        Err(CodecErrorView::Utf8(utf8_error_text(b)))
    }
}

/// Reads one value at position `p`.
pub open spec fn read_value(s: Seq<u8>, p: int) -> Result<(WireValueView, int), CodecErrorView> {
    if p >= s.len() {
        Err(CodecErrorView::Truncated)
    } else {
        let tag = s[p];
        if tag == TAG_NONE {
            Ok((WireValueView::Null, p + 1))
        } else if tag == TAG_BYTES || tag == TAG_STR || tag == TAG_JSON {
            match read_len_prefixed(s, p + 1) {
                Err(e) => Err(e),
                Ok((b, q)) => if tag == TAG_BYTES {
                    Ok((WireValueView::Bytes(b), q))
                } else {
                    match text_of(b) {
                        Err(e) => Err(e),
                        Ok(t) => if tag == TAG_STR {
                            Ok((WireValueView::Str(t), q))
                        } else {
                            Ok((WireValueView::Json(t), q))
                        },
                    }
                },
            }
        } else {
            Err(CodecErrorView::UnknownValueTag(tag))
        }
    }
}

/// Reads `n` values one after the other from position `p`.
pub open spec fn read_values(s: Seq<u8>, p: int, n: nat) -> Result<(Seq<WireValueView>, int), CodecErrorView>
    decreases n,
{
    if n == 0 {
        Ok((Seq::empty(), p))
    } else {
        match read_value(s, p) {
            Err(e) => Err(e),
            Ok((v, q)) => match read_values(s, q, (n - 1) as nat) {
                Err(e) => Err(e),
                Ok((vs, r)) => Ok((seq![v] + vs, r)),
            },
        }
    }
}

/// The command a frame holds.
pub open spec fn spec_decode_command(s: Seq<u8>) -> Result<CommandView, CodecErrorView> {
    match read_header(s, FRAME_COMMAND) {
        Err(e) => Err(e),
        Ok(p) => if p + 2 > s.len() {
            Err(CodecErrorView::Truncated)
        } else if p + 4 > s.len() {
            Err(CodecErrorView::Truncated)
        } else if p + 4 + read16(s, p) > s.len() {
            Err(CodecErrorView::Truncated)
        } else {
            let q = p + 4 + read16(s, p);
            match text_of(s.subrange(p + 4, q)) {
                Err(e) => Err(e),
                Ok(cmd) => if cmd.len() == 0 {
                    Err(CodecErrorView::MissingCommand)
                } else {
                    match read_values(s, q, read16(s, p + 2)) {
                        Err(e) => Err(e),
                        Ok((args, r)) => if r != s.len() {
                            Err(CodecErrorView::TrailingBytes)
                        } else {
                            Ok(CommandView { command: upper_case(cmd), args })
                        },
                    }
                },
            }
        },
    }
}

/// A response that carries one value, read at position `p`.
pub open spec fn read_single(s: Seq<u8>, p: int, kind: ResponseKind) -> Result<ResponseView, CodecErrorView> {
    match read_value(s, p) {
        Err(e) => Err(e),
        Ok((v, q)) => if q != s.len() {
            Err(CodecErrorView::TrailingBytes)
        } else {
            Ok(single(kind, present(v)))
        },
    }
}

/// Values with the none value read as absent.
pub open spec fn present_all(vs: Seq<WireValueView>) -> Seq<Option<WireValueView>> {
    vs.map_values(|v: WireValueView| present(v))
}

/// The response a frame holds.
pub open spec fn spec_decode_response(s: Seq<u8>) -> Result<ResponseView, CodecErrorView> {
    match read_header(s, FRAME_RESPONSE) {
        Err(e) => Err(e),
        Ok(p) => if p >= s.len() {
            Err(CodecErrorView::Truncated)
        } else {
            let k = s[p];
            let q = p + 1;
            if k == 1 {
                read_single(s, q, ResponseKind::Simple)
            } else if k == 2 {
                read_single(s, q, ResponseKind::Bulk)
            } else if k == 3 {
                if q + 4 > s.len() {
                    Err(CodecErrorView::Truncated)
                } else {
                    match read_values(s, q + 4, read32(s, q)) {
                        Err(e) => Err(e),
                        Ok((vs, r)) => if r != s.len() {
                            Err(CodecErrorView::TrailingBytes)
                        } else {
                            Ok(array_view(present_all(vs)))
                        },
                    }
                }
            } else if k == 4 {
                if q != s.len() {
                    Err(CodecErrorView::TrailingBytes)
                } else {
                    Ok(nil_view())
                }
            } else if k == 5 {
                match read_len_prefixed(s, q) {
                    Err(e) => Err(e),
                    Ok((b, r)) => match text_of(b) {
                        Err(e) => Err(e),
                        Ok(t) => if r != s.len() {
                            Err(CodecErrorView::TrailingBytes)
                        } else {
                            Ok(error_view(t))
                        },
                    },
                }
            } else if k == 6 {
                read_single(s, q, ResponseKind::Integer)
            } else if k == 7 {
                read_single(s, q, ResponseKind::Pong)
            } else {
                Err(CodecErrorView::UnknownResponseKind(k))
            }
        },
    }
}

/// A reading position in a byte buffer.
struct Cursor<'a> {
    p: &'a [u8],
    o: usize,
}

impl<'a> Cursor<'a> {
    fn new(p: &'a [u8]) -> (c: Cursor<'a>)
        ensures
            c.p@ == p@,
            c.o == 0,
    {
        Cursor { p, o: 0 }
    }

    fn done(&self) -> (r: bool)
        ensures
            r == (self.o == self.p@.len()),
    {
        self.o == self.p.len()
    }

    fn bytes(&mut self, n: usize) -> (r: Result<&'a [u8], CodecError>)
        requires
            old(self).o <= old(self).p@.len(),
        ensures
            final(self).p == old(self).p,
            final(self).o <= final(self).p@.len(),
            old(self).o + n <= old(self).p@.len() ==> {
                &&& r matches Ok(b)
                &&& b@ == old(self).p@.subrange(old(self).o as int, old(self).o + n)
                &&& final(self).o == old(self).o + n
            },
            old(self).o + n > old(self).p@.len() ==> {
                &&& r matches Err(e)
                &&& e@ == CodecErrorView::Truncated
                &&& final(self).o == old(self).o
            },
    {
        let len = self.p.len();
        if n > len - self.o {
            return Err(CodecError::Truncated);
        }
        let end = self.o + n;
        let out = vstd::slice::slice_subrange(self.p, self.o, end);
        self.o = end;
        Ok(out)
    }

    fn u8(&mut self) -> (r: Result<u8, CodecError>)
        requires
            old(self).o <= old(self).p@.len(),
        ensures
            final(self).p == old(self).p,
            final(self).o <= final(self).p@.len(),
            old(self).o + 1 <= old(self).p@.len() ==> {
                &&& r == Ok::<u8, CodecError>(old(self).p@[old(self).o as int])
                &&& final(self).o == old(self).o + 1
            },
            old(self).o + 1 > old(self).p@.len() ==> {
                &&& r matches Err(e)
                &&& e@ == CodecErrorView::Truncated
            },
    {
        match self.bytes(1) {
            Ok(b) => Ok(b[0]),
            Err(e) => Err(e),
        }
    }

    fn u16(&mut self) -> (r: Result<u16, CodecError>)
        requires
            old(self).o <= old(self).p@.len(),
        ensures
            final(self).p == old(self).p,
            final(self).o <= final(self).p@.len(),
            old(self).o + 2 <= old(self).p@.len() ==> {
                &&& r matches Ok(v)
                &&& v == read16(old(self).p@, old(self).o as int)
                &&& final(self).o == old(self).o + 2
            },
            old(self).o + 2 > old(self).p@.len() ==> {
                &&& r matches Err(e)
                &&& e@ == CodecErrorView::Truncated
            },
    {
        match self.bytes(2) {
            Ok(b) => Ok((b[0] as u16) * 256 + (b[1] as u16)),
            Err(e) => Err(e),
        }
    }

    fn u32(&mut self) -> (r: Result<u32, CodecError>)
        requires
            old(self).o <= old(self).p@.len(),
        ensures
            final(self).p == old(self).p,
            final(self).o <= final(self).p@.len(),
            old(self).o + 4 <= old(self).p@.len() ==> {
                &&& r matches Ok(v)
                &&& v == read32(old(self).p@, old(self).o as int)
                &&& final(self).o == old(self).o + 4
            },
            old(self).o + 4 > old(self).p@.len() ==> {
                &&& r matches Err(e)
                &&& e@ == CodecErrorView::Truncated
            },
    {
        match self.bytes(4) {
            Ok(b) => {
                let v = (((b[0] as u32) * 256 + (b[1] as u32)) * 256 + (b[2] as u32)) * 256
                    + (b[3] as u32);
                Ok(v)
            },
            Err(e) => Err(e),
        }
    }

    fn len_prefixed(&mut self) -> (r: Result<&'a [u8], CodecError>)
        requires
            old(self).o <= old(self).p@.len(),
        ensures
            final(self).p == old(self).p,
            final(self).o <= final(self).p@.len(),
            match read_len_prefixed(old(self).p@, old(self).o as int) {
                Ok((b, q)) => r matches Ok(x) && x@ == b && final(self).o == q,
                Err(e) => r matches Err(x) && x@ == e,
            },
    {
        let n = match self.u32() {
            Ok(n) => n,
            Err(e) => return Err(e),
        };
        self.bytes(n as usize)
    }
}

/// The text that UTF-8 bytes encode, or the error that reports them.
fn utf8_text(b: &[u8]) -> (r: Result<String, CodecError>)
    ensures
        match text_of(b@) {
            Ok(t) => r matches Ok(x) && x@ == t,
            Err(e) => r matches Err(x) && x@ == e,
        },
{
    match string_from_utf8(vstd::slice::slice_to_vec(b)) {
        Ok(s) => Ok(s),
        Err(m) => Err(CodecError::Utf8(m)),
    }
}

fn decode_value(c: &mut Cursor) -> (r: Result<WireValue, CodecError>)
    requires
        old(c).o <= old(c).p@.len(),
    ensures
        final(c).p == old(c).p,
        final(c).o <= final(c).p@.len(),
        match read_value(old(c).p@, old(c).o as int) {
            Ok((v, q)) => r matches Ok(x) && x@ == v && final(c).o == q,
            Err(e) => r matches Err(x) && x@ == e,
        },
{
    let tag = match c.u8() {
        Ok(t) => t,
        Err(e) => return Err(e),
    };
    if tag == TAG_NONE {
        Ok(WireValue::Null)
    } else if tag == TAG_BYTES {
        match c.len_prefixed() {
            Ok(b) => Ok(WireValue::Bytes(vstd::slice::slice_to_vec(b))),
            Err(e) => Err(e),
        }
    } else if tag == TAG_STR {
        match c.len_prefixed() {
            Ok(b) => match utf8_text(b) {
                Ok(t) => Ok(WireValue::Str(t)),
                Err(e) => Err(e),
            },
            Err(e) => Err(e),
        }
    } else if tag == TAG_JSON {
        match c.len_prefixed() {
            Ok(b) => match utf8_text(b) {
                Ok(t) => Ok(WireValue::Json(t)),
                Err(e) => Err(e),
            },
            Err(e) => Err(e),
        }
    } else {
        Err(CodecError::UnknownValueTag(tag))
    }
}

/// A sequence of values read so far, put in front of what the rest gives.
pub open spec fn after(acc: Seq<WireValueView>, r: Result<(Seq<WireValueView>, int), CodecErrorView>) -> Result<(Seq<WireValueView>, int), CodecErrorView> {
    match r {
        Ok((vs, q)) => Ok((acc + vs, q)),
        Err(e) => Err(e),
    }
}

fn decode_values(c: &mut Cursor, n: usize) -> (r: Result<Vec<WireValue>, CodecError>)
    requires
        old(c).o <= old(c).p@.len(),
    ensures
        final(c).p == old(c).p,
        final(c).o <= final(c).p@.len(),
        match read_values(old(c).p@, old(c).o as int, n as nat) {
            Ok((vs, q)) => r matches Ok(x) && values_view(x@) == vs && final(c).o == q,
            Err(e) => r matches Err(x) && x@ == e,
        },
{
    let ghost s = c.p@;
    let ghost start = c.o as int;
    let mut out: Vec<WireValue> = Vec::new();
    let mut i: usize = 0;
    while i < n
        invariant
            c.p == old(c).p,
            start == old(c).o as int,
            c.p@ == s,
            c.o <= s.len(),
            i <= n,
            read_values(s, start, n as nat) == after(
                values_view(out@),
                read_values(s, c.o as int, (n - i) as nat),
            ),
        decreases n - i,
    {
        let ghost before = values_view(out@);
        let ghost pos = c.o as int;
        match decode_value(c) {
            Ok(v) => {
                out.push(v);
                proof {
                    assert(values_view(out@) =~= before.push(v@));
                    let rest = read_values(s, c.o as int, (n - i - 1) as nat);
                    match rest {
                        Ok((vs, q)) => {
                            assert(before + (seq![v@] + vs) =~= before.push(v@) + vs);
                        },
                        Err(e) => {},
                    }
                }
            },
            Err(e) => {
                proof {
                    assert(read_values(s, pos, (n - i) as nat) == Err::<
                        (Seq<WireValueView>, int),
                        CodecErrorView,
                    >(e@));
                    assert(read_values(s, start, n as nat) == Err::<
                        (Seq<WireValueView>, int),
                        CodecErrorView,
                    >(e@));

                }
                return Err(e);
            },
        }
        i = i + 1;
    }
    proof {
        assert(values_view(out@) + Seq::<WireValueView>::empty() =~= values_view(out@));
    }
    Ok(out)
}

fn decode_header(c: &mut Cursor, expected: u8) -> (r: Result<(), CodecError>)
    requires
        old(c).o == 0,
    ensures
        final(c).p == old(c).p,
        final(c).o <= final(c).p@.len(),
        match read_header(old(c).p@, expected) {
            Ok(p) => r is Ok && final(c).o == p,
            Err(e) => r matches Err(x) && x@ == e,
        },
{
    let m = match c.bytes(4) {
        Ok(m) => m,
        Err(e) => return Err(e),
    };
    if !(m[0] == 73 && m[1] == 88 && m[2] == 50 && m[3] == 82) {
        proof {
            assert(m@ != magic()) by {
                if m@ == magic() {
                    assert(m@[0] == 73 && m@[1] == 88 && m@[2] == 50 && m@[3] == 82);
                }
            }
        }
        return Err(CodecError::InvalidMagic);
    }
    assert(m@ =~= magic());
    let version = match c.u8() {
        Ok(v) => v,
        Err(e) => return Err(e),
    };
    if version != PROTOCOL_VERSION {
        return Err(CodecError::UnsupportedVersion(version));
    }
    let frame = match c.u8() {
        Ok(v) => v,
        Err(e) => return Err(e),
    };
    if frame != expected {
        return Err(CodecError::UnexpectedFrameType(frame));
    }
    Ok(())
}

/// The model of a decoded command result.
pub open spec fn command_result(r: Result<CommandFrame, CodecError>) -> Result<CommandView, CodecErrorView> {
    match r {
        Ok(f) => Ok(f@),
        Err(e) => Err(e@),
    }
}

/// The model of a decoded response result.
pub open spec fn response_result(r: Result<ResponseFrame, CodecError>) -> Result<ResponseView, CodecErrorView> {
    match r {
        Ok(f) => Ok(f@),
        Err(e) => Err(e@),
    }
}

/// Decodes a command frame; the command name comes back upper-cased.
pub fn decode_command(payload: &[u8]) -> (r: Result<CommandFrame, CodecError>)
    ensures
        command_result(r) == spec_decode_command(payload@),
{
    let mut c = Cursor::new(payload);
    match decode_header(&mut c, FRAME_COMMAND) {
        Ok(()) => {},
        Err(e) => return Err(e),
    }
    let command_len = match c.u16() {
        Ok(v) => v,
        Err(e) => return Err(e),
    };
    let argc = match c.u16() {
        Ok(v) => v,
        Err(e) => return Err(e),
    };
    let raw = match c.bytes(command_len as usize) {
        Ok(b) => b,
        Err(e) => return Err(e),
    };
    let command = match utf8_text(raw) {
        Ok(t) => t,
        Err(e) => return Err(e),
    };
    if command.as_str().is_empty() {
        return Err(CodecError::MissingCommand);
    }
    let args = match decode_values(&mut c, argc as usize) {
        Ok(a) => a,
        Err(e) => return Err(e),
    };
    if !c.done() {
        return Err(CodecError::TrailingBytes);
    }
    let upper_command = to_upper(command.as_str());
    Ok(CommandFrame { command: upper_command, args })
}

fn one(c: &mut Cursor, kind: ResponseKind) -> (r: Result<ResponseFrame, CodecError>)
    requires
        old(c).o <= old(c).p@.len(),
    ensures
        response_result(r) == read_single(old(c).p@, old(c).o as int, kind),
{
    let v = match decode_value(c) {
        Ok(v) => v,
        Err(e) => return Err(e),
    };
    if !c.done() {
        return Err(CodecError::TrailingBytes);
    }
    let value = if v.is_none() {
        None
    } else {
        Some(v)
    };
    let r = ResponseFrame { kind, value, array: Vec::new(), message: None };
    assert(r@.array =~= Seq::<Option<WireValueView>>::empty());
    Ok(r)
}

/// Decodes a response frame.
pub fn decode_response(payload: &[u8]) -> (r: Result<ResponseFrame, CodecError>)
    ensures
        response_result(r) == spec_decode_response(payload@),
{
    let mut c = Cursor::new(payload);
    match decode_header(&mut c, FRAME_RESPONSE) {
        Ok(()) => {},
        Err(e) => return Err(e),
    }
    let kind = match c.u8() {
        Ok(k) => k,
        Err(e) => return Err(e),
    };
    if kind == 1 {
        one(&mut c, ResponseKind::Simple)
    } else if kind == 2 {
        one(&mut c, ResponseKind::Bulk)
    } else if kind == 3 {
        let n = match c.u32() {
            Ok(n) => n,
            Err(e) => return Err(e),
        };
        let values = match decode_values(&mut c, n as usize) {
            Ok(vs) => vs,
            Err(e) => return Err(e),
        };
        if !c.done() {
            return Err(CodecError::TrailingBytes);
        }
        let mut array: Vec<Option<WireValue>> = Vec::new();
        let mut i: usize = 0;
        while i < values.len()
            invariant
                i <= values@.len(),
                array@.len() == i,
                opt_values_view(array@) =~= present_all(values_view(values@)).subrange(
                    0,
                    i as int,
                ),
            decreases values@.len() - i,
        {
            let v = values[i].duplicate();
            let ghost before = array@;
            if v.is_none() {
                array.push(None);
            } else {
                array.push(Some(v));
            }
            proof {
                assert(array@ == before.push(array@[i as int]));
                assert(opt_values_view(array@) =~= opt_values_view(before).push(
                    present(values@[i as int]@),
                ));
                assert(present_all(values_view(values@)).subrange(0, i + 1) =~= present_all(
                    values_view(values@),
                ).subrange(0, i as int).push(present(values@[i as int]@)));
            }
            i = i + 1;
        }
        assert(present_all(values_view(values@)).subrange(0, values@.len() as int) =~= present_all(
            values_view(values@),
        ));
        Ok(ResponseFrame::array(array))
    } else if kind == 4 {
        if !c.done() {
            return Err(CodecError::TrailingBytes);
        }
        Ok(ResponseFrame::nil())
    } else if kind == 5 {
        let raw = match c.len_prefixed() {
            Ok(b) => b,
            Err(e) => return Err(e),
        };
        let msg = match utf8_text(raw) {
            Ok(t) => t,
            Err(e) => return Err(e),
        };
        if !c.done() {
            return Err(CodecError::TrailingBytes);
        }
        Ok(ResponseFrame::error(msg.as_str()))
    } else if kind == 6 {
        one(&mut c, ResponseKind::Integer)
    } else if kind == 7 {
        one(&mut c, ResponseKind::Pong)
    } else {
        Err(CodecError::UnknownResponseKind(kind))
    }
}

// ---------------------------------------------------------------------------
// Laws
// ---------------------------------------------------------------------------

/// Whether every value of a list fits the format's `u32` lengths.
pub open spec fn all_packable(vs: Seq<WireValueView>) -> bool {
    forall|i: int| 0 <= i < vs.len() ==> #[trigger] packable(vs[i])
}

proof fn lemma_read16(s: Seq<u8>, p: int, n: nat)
    requires
        n < 65536,
        0 <= p,
        p + 2 <= s.len(),
        s.subrange(p, p + 2) == be16(n),
    ensures
        read16(s, p) == n,
{
    assert(s[p] == s.subrange(p, p + 2)[0]);
    assert(s[p + 1] == s.subrange(p, p + 2)[1]);
    assert(((n / 256) % 256) as u8 == n / 256);
    assert((n % 256) as u8 == n % 256);
}

proof fn lemma_read32(s: Seq<u8>, p: int, n: nat)
    requires
        n < 4294967296,
        0 <= p,
        p + 4 <= s.len(),
        s.subrange(p, p + 4) == be32(n),
    ensures
        read32(s, p) == n,
{
    let t = s.subrange(p, p + 4);
    assert(s[p] == t[0]);
    assert(s[p + 1] == t[1]);
    assert(s[p + 2] == t[2]);
    assert(s[p + 3] == t[3]);
    assert(((n / 16777216) % 256) as u8 == n / 16777216);
    assert(((n / 65536) % 256) as u8 == (n / 65536) % 256);
    assert(((n / 256) % 256) as u8 == (n / 256) % 256);
    assert((n % 256) as u8 == n % 256);
    assert((((n / 16777216) * 256 + (n / 65536) % 256) * 256 + (n / 256) % 256) * 256 + n % 256
        == n) by (nonlinear_arith)
        requires
            n < 4294967296,
    ;
}

proof fn lemma_read_packed(s: Seq<u8>, p: int, b: Seq<u8>)
    requires
        b.len() < 4294967296,
        0 <= p,
        p + pack(b).len() <= s.len(),
        s.subrange(p, p + pack(b).len()) == pack(b),
    ensures
        read_len_prefixed(s, p) == Ok::<(Seq<u8>, int), CodecErrorView>(
            (b, p + pack(b).len()),
        ),
{
    let n = b.len() as int;
    assert(s.subrange(p, p + 4) =~= pack(b).subrange(0, 4));
    assert(pack(b).subrange(0, 4) =~= be32(b.len()));
    lemma_read32(s, p, b.len());
    assert(s.subrange(p + 4, p + 4 + n) =~= pack(b).subrange(4, 4 + n));
    assert(pack(b).subrange(4, 4 + n) =~= b);
}

proof fn lemma_read_encoded_value(s: Seq<u8>, p: int, v: WireValueView)
    requires
        packable(v),
        0 <= p,
        p + encode_value(v).len() <= s.len(),
        s.subrange(p, p + encode_value(v).len()) == encode_value(v),
    ensures
        read_value(s, p) == Ok::<(WireValueView, int), CodecErrorView>(
            (v, p + encode_value(v).len()),
        ),
{
    let e = encode_value(v);
    assert(s[p] == e[0]);
    match v {
        WireValueView::Null => {},
        WireValueView::Bytes(b) => {
            assert(s.subrange(p + 1, p + 1 + pack(b).len()) =~= e.subrange(1, e.len() as int));
            assert(e.subrange(1, e.len() as int) =~= pack(b));
            lemma_read_packed(s, p + 1, b);
        },
        WireValueView::Str(t) => {
            let b = encode_utf8(t);
            assert(s.subrange(p + 1, p + 1 + pack(b).len()) =~= e.subrange(1, e.len() as int));
            assert(e.subrange(1, e.len() as int) =~= pack(b));
            lemma_read_packed(s, p + 1, b);
        },
        WireValueView::Json(t) => {
            let b = encode_utf8(t);
            assert(s.subrange(p + 1, p + 1 + pack(b).len()) =~= e.subrange(1, e.len() as int));
            assert(e.subrange(1, e.len() as int) =~= pack(b));
            lemma_read_packed(s, p + 1, b);
        },
    }
}

proof fn lemma_read_encoded_values(s: Seq<u8>, p: int, vs: Seq<WireValueView>)
    requires
        all_packable(vs),
        0 <= p,
        p + encode_values(vs).len() <= s.len(),
        s.subrange(p, p + encode_values(vs).len()) == encode_values(vs),
    ensures
        read_values(s, p, vs.len()) == Ok::<(Seq<WireValueView>, int), CodecErrorView>(
            (vs, p + encode_values(vs).len()),
        ),
    decreases vs.len(),
{
    if vs.len() == 0 {
        assert(vs =~= Seq::<WireValueView>::empty());
    } else {
        let e0 = encode_value(vs[0]);
        let rest = vs.drop_first();
        let all = encode_values(vs);
        assert(all == e0 + encode_values(rest));
        assert(packable(vs[0]));
        assert(s.subrange(p, p + e0.len()) =~= all.subrange(0, e0.len() as int));
        assert(all.subrange(0, e0.len() as int) =~= e0);
        lemma_read_encoded_value(s, p, vs[0]);
        assert forall|i: int| 0 <= i < rest.len() implies #[trigger] packable(rest[i]) by {
            assert(rest[i] == vs[i + 1]);
        }
        let q = p + e0.len();
        assert(s.subrange(q, q + encode_values(rest).len()) =~= all.subrange(
            e0.len() as int,
            all.len() as int,
        ));
        assert(all.subrange(e0.len() as int, all.len() as int) =~= encode_values(rest));
        lemma_read_encoded_values(s, q, rest);
        assert(seq![vs[0]] + rest =~= vs);
    }
}

/// Decoding the frame that `encode_command` builds for a list of parts gives
/// back its arguments unchanged and its command name, upper-cased once more.
/// (A command whose name is empty is refused by the decoder.)
pub proof fn law_command_roundtrip(parts: Seq<WireValueView>)
    requires
        spec_encode_command(parts) is Ok,
        command_name(parts[0]).len() > 0,
        all_packable(parts.drop_first()),
    ensures
        spec_decode_command(spec_encode_command(parts)->Ok_0) == Ok::<
            CommandView,
            CodecErrorView,
        >(CommandView { command: upper_case(command_name(parts[0])), args: parts.drop_first() }),
{
    let s = spec_encode_command(parts)->Ok_0;
    let cmd = encode_utf8(command_name(parts[0]));
    let args = parts.drop_first();
    let ev = encode_values(args);
    assert(s == frame_header(FRAME_COMMAND) + be16(cmd.len()) + be16(args.len()) + cmd + ev);
    assert(s.subrange(0, 4) =~= magic());
    assert(s[4] == PROTOCOL_VERSION);
    assert(s[5] == FRAME_COMMAND);
    assert(read_header(s, FRAME_COMMAND) == Ok::<int, CodecErrorView>(6));
    assert(s.subrange(6, 8) =~= be16(cmd.len()));
    lemma_read16(s, 6, cmd.len());
    assert(s.subrange(8, 10) =~= be16(args.len()));
    lemma_read16(s, 8, args.len());
    let q = 10 + cmd.len() as int;
    assert(s.subrange(10, q) =~= cmd);
    assert(text_of(cmd) == Ok::<Seq<char>, CodecErrorView>(command_name(parts[0])));
    assert(s.subrange(q, q + ev.len() as int) =~= ev);
    lemma_read_encoded_values(s, q, args);
}

/// What decoding gives back for a response: the none value reads as absent,
/// and only the fields that the response's kind carries are kept.
pub open spec fn normalized(f: ResponseView) -> ResponseView {
    match f.kind {
        ResponseKind::Nil => nil_view(),
        ResponseKind::Error => error_view(error_message(f.message)),
        ResponseKind::Array => array_view(
            f.array.map_values(|o: Option<WireValueView>| present(or_null(o))),
        ),
        _ => single(f.kind, present(or_null(f.value))),
    }
}

/// Whether the lengths of a response fit the format's `u32` lengths.
pub open spec fn response_packable(f: ResponseView) -> bool {
    match f.kind {
        ResponseKind::Nil => true,
        ResponseKind::Error => encode_utf8(error_message(f.message)).len() < 4294967296,
        ResponseKind::Array => f.array.len() < 4294967296 && all_packable(
            f.array.map_values(|o: Option<WireValueView>| or_null(o)),
        ),
        _ => packable(or_null(f.value)),
    }
}

/// Bytes after a well-formed command frame are refused: decoding the frame
/// with anything appended reports `TrailingBytes`.
pub proof fn law_command_trailing_bytes(parts: Seq<WireValueView>, extra: Seq<u8>)
    requires
        spec_encode_command(parts) is Ok,
        command_name(parts[0]).len() > 0,
        all_packable(parts.drop_first()),
        extra.len() > 0,
    ensures
        spec_decode_command(spec_encode_command(parts)->Ok_0 + extra) == Err::<CommandView, CodecErrorView>(
            CodecErrorView::TrailingBytes,
        ),
{
    let f = spec_encode_command(parts)->Ok_0;
    let s = f + extra;
    let cmd = encode_utf8(command_name(parts[0]));
    let args = parts.drop_first();
    let ev = encode_values(args);
    assert(f == frame_header(FRAME_COMMAND) + be16(cmd.len()) + be16(args.len()) + cmd + ev);
    assert(s.subrange(0, 4) =~= magic());
    assert(s[4] == PROTOCOL_VERSION);
    assert(s[5] == FRAME_COMMAND);
    assert(read_header(s, FRAME_COMMAND) == Ok::<int, CodecErrorView>(6));
    assert(s.subrange(6, 8) =~= be16(cmd.len()));
    lemma_read16(s, 6, cmd.len());
    assert(s.subrange(8, 10) =~= be16(args.len()));
    lemma_read16(s, 8, args.len());
    let q = 10 + cmd.len() as int;
    assert(s.subrange(10, q) =~= cmd);
    assert(text_of(cmd) == Ok::<Seq<char>, CodecErrorView>(command_name(parts[0])));
    assert(s.subrange(q, q + ev.len() as int) =~= ev);
    lemma_read_encoded_values(s, q, args);
    assert(q + ev.len() == f.len());
}

/// A length-prefixed field cut short reads as `Truncated`.
proof fn lemma_packed_prefix(t: Seq<u8>, p: int, b: Seq<u8>)
    requires
        b.len() < 4294967296,
        0 <= p <= t.len(),
        t.len() < p + pack(b).len(),
        t.subrange(p, t.len() as int) == pack(b).subrange(0, t.len() - p),
    ensures
        read_len_prefixed(t, p) == Err::<(Seq<u8>, int), CodecErrorView>(CodecErrorView::Truncated),
{
    if p + 4 <= t.len() {
        assert(t.subrange(p, p + 4) =~= pack(b).subrange(0, 4));
        assert(pack(b).subrange(0, 4) =~= be32(b.len()));
        lemma_read32(t, p, b.len());
    }
}

/// A value cut short reads as `Truncated`.
proof fn lemma_value_prefix(t: Seq<u8>, p: int, v: WireValueView)
    requires
        packable(v),
        0 <= p <= t.len(),
        t.len() < p + encode_value(v).len(),
        t.subrange(p, t.len() as int) == encode_value(v).subrange(0, t.len() - p),
    ensures
        read_value(t, p) == Err::<(WireValueView, int), CodecErrorView>(CodecErrorView::Truncated),
{
    let e = encode_value(v);
    if p < t.len() {
        assert(t[p] == t.subrange(p, t.len() as int)[0]);
        assert(t[p] == e[0]);
        let b = match v {
            WireValueView::Bytes(x) => x,
            WireValueView::Str(x) => encode_utf8(x),
            WireValueView::Json(x) => encode_utf8(x),
            WireValueView::Null => Seq::empty(),
        };
        if !(v is Null) {
            assert(e =~= seq![e[0]] + pack(b));
            let n1 = t.len() - p - 1;
            assert forall|i: int| 0 <= i < n1 implies #[trigger] t.subrange(p + 1, t.len() as int)[i]
                == pack(b).subrange(0, n1)[i] by {
                assert(t.subrange(p + 1, t.len() as int)[i] == t.subrange(p, t.len() as int)[1 + i]);
                assert(e[1 + i] == pack(b)[i]);
            }
            assert(t.subrange(p + 1, t.len() as int) =~= pack(b).subrange(0, t.len() - p - 1));
            lemma_packed_prefix(t, p + 1, b);
        }
    }
}

/// A list of values cut short reads as `Truncated`.
proof fn lemma_values_prefix(t: Seq<u8>, p: int, vs: Seq<WireValueView>)
    requires
        all_packable(vs),
        0 <= p <= t.len(),
        t.len() < p + encode_values(vs).len(),
        t.subrange(p, t.len() as int) == encode_values(vs).subrange(0, t.len() - p),
    ensures
        read_values(t, p, vs.len()) == Err::<(Seq<WireValueView>, int), CodecErrorView>(
            CodecErrorView::Truncated,
        ),
    decreases vs.len(),
{
    let all = encode_values(vs);
    if vs.len() > 0 {
        let e0 = encode_value(vs[0]);
        let rest = vs.drop_first();
        assert(all == e0 + encode_values(rest));
        assert(packable(vs[0]));
        if t.len() < p + e0.len() {
            assert(t.subrange(p, t.len() as int) =~= e0.subrange(0, t.len() - p));
            lemma_value_prefix(t, p, vs[0]);
        } else {
            assert(t.subrange(p, p + e0.len()) =~= all.subrange(0, e0.len() as int));
            assert(all.subrange(0, e0.len() as int) =~= e0);
            lemma_read_encoded_value(t, p, vs[0]);
            assert forall|i: int| 0 <= i < rest.len() implies #[trigger] packable(rest[i]) by {
                assert(rest[i] == vs[i + 1]);
            }
            let q = p + e0.len();
            let n1 = t.len() - q;
            assert forall|i: int| 0 <= i < n1 implies #[trigger] t.subrange(q, t.len() as int)[i]
                == encode_values(rest).subrange(0, n1)[i] by {
                assert(t.subrange(q, t.len() as int)[i] == t.subrange(p, t.len() as int)[e0.len() + i]);
                assert(all[e0.len() + i] == encode_values(rest)[i]);
            }
            assert(t.subrange(q, t.len() as int) =~= encode_values(rest).subrange(0, t.len() - q));
            lemma_values_prefix(t, q, rest);
        }
    }
}

/// Every proper prefix of an encoded response decodes as `Truncated`.
#[verifier::spinoff_prover]
pub proof fn law_response_prefix_truncated(f: ResponseView, k: int)
    requires
        response_packable(f),
        0 <= k < spec_encode_response(f).len(),
    ensures
        spec_decode_response(spec_encode_response(f).subrange(0, k)) == Err::<ResponseView, CodecErrorView>(
            CodecErrorView::Truncated,
        ),
{
    let s = spec_encode_response(f);
    let t = s.subrange(0, k);
    let pl = response_payload(f);
    lemma_response_frame(f);
    assert(s == frame_header(FRAME_RESPONSE) + seq![kind_byte(f.kind)] + pl);
    if k >= 4 {
        assert(t.subrange(0, 4) =~= magic());
    }
    if k >= 5 {
        assert(t[4] == PROTOCOL_VERSION);
    }
    if k >= 6 {
        assert(t[5] == FRAME_RESPONSE);
    }
    if k >= 7 {
        assert(t[6] == kind_byte(f.kind));
        assert(t.subrange(7, k) =~= pl.subrange(0, k - 7));
        match f.kind {
            ResponseKind::Nil => {},
            ResponseKind::Error => {
                lemma_packed_prefix(t, 7, encode_utf8(error_message(f.message)));
            },
            ResponseKind::Array => {
                let items = f.array.map_values(|o: Option<WireValueView>| or_null(o));
                let n = f.array.len();
                if k >= 11 {
                    assert(t.subrange(7, 11) =~= be32(n % 4294967296));
                    lemma_read32(t, 7, n);
                    assert(t.subrange(11, k) =~= encode_values(items).subrange(0, k - 11));
                    lemma_values_prefix(t, 11, items);
                }
            },
            _ => {
                lemma_value_prefix(t, 7, or_null(f.value));
            },
        }
    }
}

proof fn lemma_response_frame(f: ResponseView)
    ensures
        read_header(spec_encode_response(f), FRAME_RESPONSE) == Ok::<int, CodecErrorView>(6),
        spec_encode_response(f)[6] == kind_byte(f.kind),
        spec_encode_response(f).subrange(7, spec_encode_response(f).len() as int) =~= response_payload(f),
{
    let s = spec_encode_response(f);
    let pl = response_payload(f);
    assert(s == frame_header(FRAME_RESPONSE) + seq![kind_byte(f.kind)] + pl);
    assert(s.subrange(0, 4) =~= magic());
    assert(s[4] == PROTOCOL_VERSION);
    assert(s[5] == FRAME_RESPONSE);
    assert(s.subrange(7, s.len() as int) =~= pl);
}

#[verifier::spinoff_prover]
proof fn lemma_array_response_roundtrip(f: ResponseView)
    requires
        response_packable(f),
        f.kind == ResponseKind::Array,
    ensures
        spec_decode_response(spec_encode_response(f)) == Ok::<ResponseView, CodecErrorView>(
            normalized(f),
        ),
{
    let s = spec_encode_response(f);
    lemma_response_frame(f);
    let items = f.array.map_values(|o: Option<WireValueView>| or_null(o));
    let n = f.array.len();
    assert(s.subrange(7, 11) =~= be32(n % 4294967296));
    lemma_read32(s, 7, n);
    let ev = encode_values(items);
    assert(s.subrange(11, 11 + ev.len() as int) =~= ev);
    lemma_read_encoded_values(s, 11, items);
    assert(present_all(items) =~= f.array.map_values(|o: Option<WireValueView>| present(or_null(o))));
}

/// Decoding the frame that `encode_response` builds gives back the response,
/// in the form that `normalized` describes.
#[verifier::spinoff_prover]
pub proof fn law_response_roundtrip(f: ResponseView)
    requires
        response_packable(f),
    ensures
        spec_decode_response(spec_encode_response(f)) == Ok::<ResponseView, CodecErrorView>(
            normalized(f),
        ),
{
    let s = spec_encode_response(f);
    lemma_response_frame(f);
    match f.kind {
        ResponseKind::Nil => {
            assert(normalized(f) =~= nil_view());
        },
        ResponseKind::Error => {
            let b = encode_utf8(error_message(f.message));
            lemma_read_packed(s, 7, b);
        },
        ResponseKind::Array => {
            lemma_array_response_roundtrip(f);
        },
        _ => {
            let v = or_null(f.value);
            assert(s.subrange(7, 7 + encode_value(v).len() as int) =~= encode_value(v));
            lemma_read_encoded_value(s, 7, v);
        },
    }
}

} // verus!
