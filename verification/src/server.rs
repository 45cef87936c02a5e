//! The server: its configuration, the description it publishes, and the
//! routing of commands between the plain store and the write-once store.

use vstd::prelude::*;
use std::time::Duration;
use crate::clock::duration_from_nanos;
use crate::json::{json_quote, quote_json};
use crate::size::{bytes_text, format_bytes};
use crate::codec::{
    array_view, decode_command, encode_response, integer_view, lossy_key, opt_values_view, spec_decode_command,
    spec_encode_response, values_view, CommandFrame, CommandView, ResponseFrame, ResponseView, WireValue,
    WireValueView,
};
use crate::commands::{
    codec_error_answer, const_delete_error, const_handled, count_value, get_value, handled,
    is_const_key, wrong_args, StoreMap,
};
use crate::glob::{glob_regex, regex_accepts, regex_matches};
use crate::item::ItemView;
use crate::laws::{lemma_lookup_never_expires, never_expires};
use crate::store::{
    ConstJsonStore, JsonStore, StoreError, StoreErrorView, keys_found, spec_initialize, unit_result, is_const,
};
use crate::table::{lookup, purge_all, purged};
use crate::text::str_eq;
use crate::text::{append, nat_text, owned, u64_text};
use crate::transport::{service_name_from_host, spec_service_name, trim_leading_slashes, trim_trailing_slashes};

verus! {

/// The name the server reports.
pub const SERVER_NAME: &'static str = "iox2redis-json";

/// The largest payload accepted unless configured otherwise (64 KiB).
pub const DEFAULT_MAX_PAYLOAD_SIZE: usize = 65536;

/// The poll interval unless configured otherwise, in nanoseconds.
pub const DEFAULT_POLL_NS: u64 = 100000;

/// The prefix of the write-once keys.
pub const CONST_KEY_PREFIX: &'static str = "const:";

/// The constant key under which the server publishes its description.
pub const SERVER_INFO_KEY: &'static str = "const:server_info";

// ---------------------------------------------------------------------------
// Configuration
// ---------------------------------------------------------------------------

/// How a server is set up.
#[derive(Clone, Debug)]
pub struct ServerConfig {
    pub service_name: String,
    pub max_payload_size: usize,
    pub poll_ns: Option<u64>,
    pub poll_ms: Option<u64>,
}

/// The mathematical model of a [`ServerConfig`].
pub struct ServerConfigView {
    pub service_name: Seq<char>,
    pub max_payload_size: nat,
    pub poll_ns: Option<u64>,
    pub poll_ms: Option<u64>,
}

impl View for ServerConfig {
    type V = ServerConfigView;

    open spec fn view(&self) -> ServerConfigView {
        ServerConfigView {
            service_name: self.service_name@,
            max_payload_size: self.max_payload_size as nat,
            poll_ns: self.poll_ns,
            poll_ms: self.poll_ms,
        }
    }
}

/// The poll interval in nanoseconds: the one given in nanoseconds, else
/// the one given in milliseconds (saturated at `u64::MAX`), else the
/// default.
pub open spec fn effective_poll(c: ServerConfigView) -> u64 {
    match c.poll_ns {
        Some(ns) => ns,
        None => match c.poll_ms {
            Some(ms) => if ms * 1000000 > u64::MAX {
                u64::MAX
            } else {
                (ms * 1000000) as u64
            },
            None => DEFAULT_POLL_NS,
        },
    }
}

/// Whether a service name is empty once its `/` characters at either end
/// are taken off.
pub open spec fn blank_service_name(name: Seq<char>) -> bool {
    trim_trailing_slashes(trim_leading_slashes(name)).len() == 0
}

/// What checking a configuration finds.
pub open spec fn spec_validate(c: ServerConfigView) -> Result<(), StoreErrorView> {
    if blank_service_name(c.service_name) {
        Err(StoreErrorView::InvalidConfig("service name must not be empty"@))
    } else if c.max_payload_size == 0 {
        Err(StoreErrorView::InvalidConfig("max_payload_size must be greater than zero"@))
    } else {
        Ok(())
    }
}

proof fn lemma_trim_leading_all(s: Seq<char>)
    ensures
        trim_leading_slashes(s).len() == 0 <==> forall|i: int| 0 <= i < s.len() ==> s[i] == '/',
        trim_leading_slashes(s).len() > 0 ==> trim_leading_slashes(s)[0] != '/',
    decreases s.len(),
{
    if s.len() > 0 && s[0] == '/' {
        lemma_trim_leading_all(s.drop_first());
        if trim_leading_slashes(s).len() == 0 {
            assert forall|i: int| 0 <= i < s.len() implies s[i] == '/' by {
                if i > 0 {
                    assert(s.drop_first()[i - 1] == s[i]);
                }
            }
        }
        if forall|i: int| 0 <= i < s.len() ==> s[i] == '/' {
            assert forall|i: int| 0 <= i < s.drop_first().len() implies s.drop_first()[i] == '/' by {
                assert(s.drop_first()[i] == s[i + 1]);
            }
        }
    }
}

proof fn lemma_trim_trailing_keeps_head(s: Seq<char>)
    requires
        s.len() > 0,
        s[0] != '/',
    ensures
        trim_trailing_slashes(s).len() > 0,
    decreases s.len(),
{
    if s.last() == '/' {
        lemma_trim_trailing_keeps_head(s.drop_last());
    }
}

proof fn lemma_blank_iff_all_slashes(s: Seq<char>)
    ensures
        blank_service_name(s) <==> forall|i: int| 0 <= i < s.len() ==> s[i] == '/',
{
    lemma_trim_leading_all(s);
    let t = trim_leading_slashes(s);
    if t.len() > 0 {
        lemma_trim_trailing_keeps_head(t);
    }
}

/// Whether every character of a text is `/`.
fn all_slashes(s: &str) -> (r: bool)
    ensures
        r == blank_service_name(s@),
{
    let chars = crate::text::chars_of(s);
    let mut i: usize = 0;
    while i < chars.len()
        invariant
            i <= chars@.len(),
            chars@ == s@,
            forall|j: int| 0 <= j < i ==> chars@[j] == '/',
        decreases chars@.len() - i,
    {
        if chars[i] != '/' {
            proof {
                lemma_blank_iff_all_slashes(s@);
            }
            return false;
        }
        i = i + 1;
    }
    proof {
        lemma_blank_iff_all_slashes(s@);
    }
    true
}

/// The description a server publishes.
#[derive(Clone, Debug)]
pub struct ServerInfo {
    pub name: String,
    pub service_path: String,
    pub max_payload_size: usize,
    pub max_payload_size_text: String,
    pub poll_value: u64,
    pub poll_unit: String,
    pub poll_is_default: bool,
    pub const_key_prefix: String,
    pub server_info_key: String,
    pub poll_text: String,
}

/// The mathematical model of a [`ServerInfo`].
pub struct ServerInfoView {
    pub name: Seq<char>,
    pub service_path: Seq<char>,
    pub max_payload_size: nat,
    pub max_payload_size_text: Seq<char>,
    pub poll_value: nat,
    pub poll_unit: Seq<char>,
    pub poll_is_default: bool,
    pub const_key_prefix: Seq<char>,
    pub server_info_key: Seq<char>,
    pub poll_text: Seq<char>,
}

impl View for ServerInfo {
    type V = ServerInfoView;

    open spec fn view(&self) -> ServerInfoView {
        ServerInfoView {
            name: self.name@,
            service_path: self.service_path@,
            max_payload_size: self.max_payload_size as nat,
            max_payload_size_text: self.max_payload_size_text@,
            poll_value: self.poll_value as nat,
            poll_unit: self.poll_unit@,
            poll_is_default: self.poll_is_default,
            const_key_prefix: self.const_key_prefix@,
            server_info_key: self.server_info_key@,
            poll_text: self.poll_text@,
        }
    }
}

/// The poll interval as configured: its number, its unit and whether it
/// is the default.
pub open spec fn poll_setting(c: ServerConfigView) -> (nat, Seq<char>, bool) {
    match c.poll_ns {
        Some(ns) => (ns as nat, "ns"@, false),
        None => match c.poll_ms {
            Some(ms) => (ms as nat, "ms"@, false),
            None => (DEFAULT_POLL_NS as nat, "ns"@, true),
        },
    }
}

/// The description of a server set up as `c`.
pub open spec fn info_of(c: ServerConfigView) -> ServerInfoView {
    let (value, unit, is_default) = poll_setting(c);
    ServerInfoView {
        name: "iox2redis-json"@,
        service_path: "/"@ + spec_service_name(c.service_name) + "/"@,
        max_payload_size: c.max_payload_size,
        max_payload_size_text: bytes_text(c.max_payload_size),
        poll_value: value,
        poll_unit: unit,
        poll_is_default: is_default,
        const_key_prefix: "const:"@,
        server_info_key: "const:server_info"@,
        poll_text: nat_text(value) + " "@ + unit + if is_default {
            " (default)"@
        } else {
            ""@
        },
    }
}

/// A JSON member: the quoted name, a colon and the value's text.
pub open spec fn member(name: Seq<char>, value: Seq<char>) -> Seq<char> {
    json_quote(name) + ":"@ + value
}

/// The text of a boolean in JSON.
pub open spec fn json_bool(b: bool) -> Seq<char> {
    if b {
        "true"@
    } else {
        "false"@
    }
}

/// The description as a JSON object, its members in the order of their
/// names.
pub open spec fn info_json(i: ServerInfoView) -> Seq<char> {
    "{"@ + member("const_key_prefix"@, json_quote(i.const_key_prefix)) + ","@ + member(
        "max_payload_size"@,
        nat_text(i.max_payload_size),
    ) + ","@ + member("max_payload_size_text"@, json_quote(i.max_payload_size_text)) + ","@
        + member("name"@, json_quote(i.name)) + ","@ + member(
        "poll_is_default"@,
        json_bool(i.poll_is_default),
    ) + ","@ + member("poll_text"@, json_quote(i.poll_text)) + ","@ + member(
        "poll_unit"@,
        json_quote(i.poll_unit),
    ) + ","@ + member("poll_value"@, nat_text(i.poll_value)) + ","@ + member(
        "server_info_key"@,
        json_quote(i.server_info_key),
    ) + ","@ + member("service_path"@, json_quote(i.service_path)) + "}"@
}

fn push_member(out: &mut String, name: &str, value: &str)
    ensures
        final(out)@ == old(out)@ + member(name@, value@),
{
    let q = quote_json(name);
    append(out, q.as_str());
    append(out, ":");
    append(out, value);
}

impl ServerInfo {
    /// The line a server prints once it is ready.
    pub fn ready_message(&self) -> (r: String)
        ensures
            r@ == "IOX2REDIS_READY "@ + self.service_path@,
    {
        let mut m = owned("IOX2REDIS_READY ");
        append(&mut m, self.service_path.as_str());
        m
    }

    /// The description as a JSON object.
    pub fn to_json_text(&self) -> (r: String)
        ensures
            r@ == info_json(self@),
    {
        let mut out = owned("{");
        push_member(&mut out, "const_key_prefix", quote_json(self.const_key_prefix.as_str()).as_str());
        append(&mut out, ",");
        push_member(&mut out, "max_payload_size", u64_text(self.max_payload_size as u64).as_str());
        append(&mut out, ",");
        push_member(&mut out, "max_payload_size_text", quote_json(self.max_payload_size_text.as_str()).as_str());
        append(&mut out, ",");
        push_member(&mut out, "name", quote_json(self.name.as_str()).as_str());
        append(&mut out, ",");
        push_member(&mut out, "poll_is_default", if self.poll_is_default { "true" } else { "false" });
        append(&mut out, ",");
        push_member(&mut out, "poll_text", quote_json(self.poll_text.as_str()).as_str());
        append(&mut out, ",");
        push_member(&mut out, "poll_unit", quote_json(self.poll_unit.as_str()).as_str());
        append(&mut out, ",");
        push_member(&mut out, "poll_value", u64_text(self.poll_value).as_str());
        append(&mut out, ",");
        push_member(&mut out, "server_info_key", quote_json(self.server_info_key.as_str()).as_str());
        append(&mut out, ",");
        push_member(&mut out, "service_path", quote_json(self.service_path.as_str()).as_str());
        append(&mut out, "}");
        out
    }
}

impl ServerConfig {
    /// A configuration for the service named in a host address, with the
    /// default payload limit and poll interval.
    pub fn new(service_name: &str) -> (c: ServerConfig)
        ensures
            c@ == (ServerConfigView {
                service_name: spec_service_name(service_name@),
                max_payload_size: DEFAULT_MAX_PAYLOAD_SIZE as nat,
                poll_ns: None,
                poll_ms: None,
            }),
    {
        ServerConfig {
            service_name: service_name_from_host(service_name),
            max_payload_size: DEFAULT_MAX_PAYLOAD_SIZE,
            poll_ns: None,
            poll_ms: None,
        }
    }

    /// The poll interval in nanoseconds.
    pub fn effective_poll_ns(&self) -> (r: u64)
        ensures
            r == effective_poll(self@),
    {
        match self.poll_ns {
            Some(ns) => ns,
            None => match self.poll_ms {
                Some(ms) => if ms > 18446744073709u64 {
                    18446744073709551615u64
                } else {
                    ms * 1000000
                },
                None => DEFAULT_POLL_NS,
            },
        }
    }

    /// The poll interval as a `Duration` of `effective_poll_ns`
    /// nanoseconds.
    pub fn poll_duration(&self) -> Duration {
        duration_from_nanos(self.effective_poll_ns())
    }

    /// Checks that the service name is not empty and the payload limit is
    /// not zero.
    pub fn validate(&self) -> (r: Result<(), StoreError>)
        ensures
            unit_result(r) == spec_validate(self@),
    {
        if all_slashes(self.service_name.as_str()) {
            return Err(StoreError::InvalidConfig(owned("service name must not be empty")));
        }
        if self.max_payload_size == 0 {
            return Err(StoreError::InvalidConfig(owned("max_payload_size must be greater than zero")));
        }
        Ok(())
    }

    /// The description of a server set up this way.
    pub fn info(&self) -> (r: ServerInfo)
        ensures
            r@ == info_of(self@),
    {
        let service_name = service_name_from_host(self.service_name.as_str());
        let (poll_value, poll_unit, poll_is_default) = match self.poll_ns {
            Some(ns) => (ns, owned("ns"), false),
            None => match self.poll_ms {
                Some(ms) => (ms, owned("ms"), false),
                None => (DEFAULT_POLL_NS, owned("ns"), true),
            },
        };
        let mut poll_text = u64_text(poll_value);
        append(&mut poll_text, " ");
        append(&mut poll_text, poll_unit.as_str());
        append(&mut poll_text, if poll_is_default { " (default)" } else { "" });
        let mut service_path = owned("/");
        append(&mut service_path, service_name.as_str());
        append(&mut service_path, "/");
        ServerInfo {
            name: owned(SERVER_NAME),
            service_path,
            max_payload_size: self.max_payload_size,
            max_payload_size_text: format_bytes(self.max_payload_size),
            poll_value,
            poll_unit,
            poll_is_default,
            const_key_prefix: owned(CONST_KEY_PREFIX),
            server_info_key: owned(SERVER_INFO_KEY),
            poll_text,
        }
    }
}

// ---------------------------------------------------------------------------
// Routing
// ---------------------------------------------------------------------------

/// The commands that act on the key given first, and go to the write-once
/// store where that key is a constant key.
pub open spec fn is_keyed_command(c: Seq<char>) -> bool {
    c == "GET"@ || c == "SET"@ || c == "JSON.GET"@ || c == "JSON.SET"@ || c == "DUMP"@ || c == "LOAD"@
}

/// Whether any of the keys given is a constant key.
pub open spec fn names_const_key(a: Seq<WireValueView>) -> bool {
    exists|i: int| 0 <= i < a.len() && is_const_key(#[trigger] lossy_key(a[i]))
}

/// `EXISTS` across both stores over the first `n` keys: the plain store
/// after it and how many keys hold a live entry.
pub open spec fn routed_exists_fold(ms: StoreMap, mc: StoreMap, a: Seq<WireValueView>, n: nat, now: int) -> (StoreMap, nat)
    decreases n,
{
    if n == 0 || n > a.len() {
        (ms, 0)
    } else {
        let (ms1, c) = routed_exists_fold(ms, mc, a, (n - 1) as nat, now);
        let k = lossy_key(a[n - 1]);
        if is_const_key(k) {
            (ms1, c + if mc.contains_key(k) {
                1nat
            } else {
                0nat
            })
        } else {
            (purged(ms1, k, now), c + if lookup(ms1, k, now) is Some {
                1nat
            } else {
                0nat
            })
        }
    }
}

/// `MGET` across both stores over the first `n` keys: the plain store
/// after it and the values read.
pub open spec fn routed_mget_fold(ms: StoreMap, mc: StoreMap, a: Seq<WireValueView>, n: nat, now: int) -> (StoreMap, Seq<Option<WireValueView>>)
    decreases n,
{
    if n == 0 || n > a.len() {
        (ms, Seq::empty())
    } else {
        let (ms1, items) = routed_mget_fold(ms, mc, a, (n - 1) as nat, now);
        let k = lossy_key(a[n - 1]);
        if is_const_key(k) {
            (ms1, items.push(if mc.contains_key(k) {
                Some(get_value(mc[k]))
            } else {
                None
            }))
        } else {
            (purged(ms1, k, now), items.push(
                match lookup(ms1, k, now) {
                    Some(it) => Some(get_value(it)),
                    None => None,
                },
            ))
        }
    }
}

/// Whether a key is live in either store.
pub open spec fn live_in_either(ms: StoreMap, mc: StoreMap, k: Seq<char>, now: int) -> bool {
    lookup(ms, k, now) is Some || mc.contains_key(k)
}

/// What `KEYS pattern` may do across both stores: where the pattern's
/// regular expression is refused, nothing; otherwise the plain store drops
/// its expired entries, and the answer holds each key live in either store
/// that matches, once.
pub open spec fn routed_keys_outcome(ms: StoreMap, mc: StoreMap, pattern: Seq<char>, now: int, ms2: StoreMap, r: ResponseView) -> bool {
    let re = glob_regex(pattern);
    if !regex_accepts(re) {
        ms2 == ms && r == array_view(Seq::empty())
    } else {
        &&& ms2 == purge_all(ms, now)
        &&& r.kind == crate::codec::ResponseKind::Array
        &&& r.value is None
        &&& r.message is None
        &&& r.array.no_duplicates()
        &&& forall|i: int|
            0 <= i < r.array.len() ==> (#[trigger] r.array[i] matches Some(WireValueView::Str(k))
                && live_in_either(ms, mc, k, now) && regex_matches(re, k))
        &&& forall|k: Seq<char>|
            live_in_either(ms, mc, k, now) && regex_matches(re, k) ==> #[trigger] r.array.contains(
                Some(WireValueView::Str(k)),
            )
    }
}

/// What the server may do on a command at time `now`, from plain store
/// `ms` and write-once store `mc` to `ms2` and `mc2`, answering `r`.
pub open spec fn server_handled(
    ms: StoreMap,
    mc: StoreMap,
    f: CommandView,
    now: int,
    ms2: StoreMap,
    mc2: StoreMap,
    r: ResponseView,
) -> bool {
    let c = f.command;
    let a = f.args;
    if is_keyed_command(c) && a.len() > 0 && is_const_key(lossy_key(a[0])) {
        ms2 == ms && const_handled(mc, f, now, mc2, r)
    } else if is_keyed_command(c) {
        mc2 == mc && handled(ms, f, now, ms2, r)
    } else if c == "DEL"@ {
        if names_const_key(a) {
            ms2 == ms && mc2 == mc && r == const_delete_error()
        } else {
            mc2 == mc && handled(ms, f, now, ms2, r)
        }
    } else if c == "EXISTS"@ {
        let (m, n) = routed_exists_fold(ms, mc, a, a.len(), now);
        ms2 == m && mc2 == mc && r == integer_view(count_value(n))
    } else if c == "MGET"@ {
        let (m, items) = routed_mget_fold(ms, mc, a, a.len(), now);
        ms2 == m && mc2 == mc && r == array_view(items)
    } else if c == "KEYS"@ {
        mc2 == mc && if a.len() == 1 {
            routed_keys_outcome(ms, mc, lossy_key(a[0]), now, ms2, r)
        } else {
            ms2 == ms && r == wrong_args("KEYS"@)
        }
    } else {
        mc2 == mc && handled(ms, f, now, ms2, r)
    }
}

/// What answering the bytes of a command at time `now` may do to a
/// server; a payload that does not decode changes nothing and is answered
/// with the codec error.
pub open spec fn server_answers_payload(
    ms: StoreMap,
    mc: StoreMap,
    payload: Seq<u8>,
    now: int,
    ms2: StoreMap,
    mc2: StoreMap,
    out: Seq<u8>,
) -> bool {
    match spec_decode_command(payload) {
        Ok(f) => exists|rv: ResponseView|
            #[trigger] server_handled(ms, mc, f, now, ms2, mc2, rv) && out == spec_encode_response(rv),
        Err(e) => ms2 == ms && mc2 == mc && out == spec_encode_response(codec_error_answer(e)),
    }
}

/// What setting up a server as `c` makes of a write-once store `mc`: the
/// configuration must be valid, the key of the description free, and the
/// description is stored there.
pub open spec fn setup_consts(c: ServerConfigView, mc: StoreMap) -> Result<StoreMap, StoreErrorView> {
    match spec_validate(c) {
        Err(e) => Err(e),
        Ok(()) => if mc.contains_key("const:server_info"@) {
            Err(StoreErrorView::InvalidConfig("\"const:server_info\" is reserved by the server"@))
        } else {
            match spec_initialize(mc, "const:server_info"@, info_json(info_of(c))) {
                (m2, Ok(())) => Ok(m2),
                (_, Err(e)) => Err(e),
            }
        },
    }
}

/// The model of a server: its configuration and description, its plain
/// store and its write-once store.
pub struct ServerState {
    pub config: ServerConfigView,
    pub info: ServerInfoView,
    pub plain: StoreMap,
    pub consts: StoreMap,
}

/// A server: a plain store for ordinary keys and a write-once store for
/// constant keys, which holds the server's own description.
pub struct Iox2JsonServer {
    pub config: ServerConfig,
    pub info: ServerInfo,
    store: JsonStore,
    const_store: ConstJsonStore,
}

impl View for Iox2JsonServer {
    type V = ServerState;

    closed spec fn view(&self) -> ServerState {
        ServerState {
            config: self.config@,
            info: self.info@,
            plain: self.store@,
            consts: self.const_store@,
        }
    }
}

/// Whether a list of names holds the given one.
fn holds_name(names: &Vec<String>, name: &str) -> (r: bool)
    ensures
        r == exists|i: int| 0 <= i < names@.len() && names@[i]@ == name@,
{
    let mut i: usize = 0;
    while i < names.len()
        invariant
            i <= names@.len(),
            forall|j: int| 0 <= j < i ==> names@[j]@ != name@,
        decreases names@.len() - i,
    {
        if str_eq(names[i].as_str(), name) {
            return true;
        }
        i = i + 1;
    }
    false
}

/// The names as string values of an array answer.
fn name_values(names: &Vec<String>) -> (r: Vec<Option<WireValue>>)
    ensures
        r@.len() == names@.len(),
        forall|t: int|
            0 <= t < names@.len() ==> #[trigger] opt_values_view(r@)[t] == Some(
                WireValueView::Str(names@[t]@),
            ),
{
    let mut out: Vec<Option<WireValue>> = Vec::new();
    let mut i: usize = 0;
    while i < names.len()
        invariant
            i <= names@.len(),
            out@.len() == i,
            forall|t: int|
                0 <= t < i ==> #[trigger] crate::codec::opt_view(out@[t]) == Some(
                    WireValueView::Str(names@[t]@),
                ),
        decreases names@.len() - i,
    {
        out.push(Some(WireValue::Str(names[i].clone())));
        i = i + 1;
    }
    out
}

/// Whether a name is among the first `n` of a list.
pub open spec fn listed(names: Seq<String>, n: int, name: Seq<char>) -> bool {
    exists|i: int| 0 <= i < n && #[trigger] names[i]@ == name
}

/// The names of `first`, then those of `second` that `first` does not
/// hold.
fn merge_names(first: Vec<String>, second: &Vec<String>) -> (names: Vec<String>)
    requires
        forall|i: int, i2: int| 0 <= i < i2 < first@.len() ==> first@[i]@ != first@[i2]@,
    ensures
        names@.len() >= first@.len(),
        forall|i: int| 0 <= i < first@.len() ==> #[trigger] names@[i]@ == first@[i]@,
        forall|i: int, i2: int| 0 <= i < i2 < names@.len() ==> names@[i]@ != names@[i2]@,
        forall|i: int|
            0 <= i < names@.len() ==> listed(first@, first@.len() as int, #[trigger] names@[i]@) || listed(
                second@,
                second@.len() as int,
                names@[i]@,
            ),
        forall|y: int|
            0 <= y < second@.len() ==> listed(names@, names@.len() as int, #[trigger] second@[y]@),
{
    let ghost first_v = first@;
    let mut names: Vec<String> = first;
    let mut j: usize = 0;
    proof {
        assert forall|i: int|
            0 <= i < names@.len() implies listed(first_v, first_v.len() as int, #[trigger] names@[i]@) || listed(
                second@,
                j as int,
                names@[i]@,
            ) by {
            assert(first_v[i]@ == names@[i]@);
        }
    }
    while j < second.len()
        invariant
            j <= second@.len(),
            names@.len() >= first_v.len(),
            forall|i: int| 0 <= i < first_v.len() ==> #[trigger] names@[i]@ == first_v[i]@,
            forall|i: int, i2: int| 0 <= i < i2 < names@.len() ==> names@[i]@ != names@[i2]@,
            forall|i: int|
                0 <= i < names@.len() ==> listed(first_v, first_v.len() as int, #[trigger] names@[i]@) || listed(
                    second@,
                    j as int,
                    names@[i]@,
                ),
            forall|y: int| 0 <= y < j ==> listed(names@, names@.len() as int, #[trigger] second@[y]@),
        decreases second@.len() - j,
    {
        let known = holds_name(&names, second[j].as_str());
        if !known {
            let ghost before = names@;
            names.push(second[j].clone());
            proof {
                assert forall|i: int| 0 <= i < first_v.len() implies #[trigger] names@[i]@ == first_v[i]@ by {
                    assert(names@[i] == before[i]);
                }
                assert forall|i: int, i2: int| 0 <= i < i2 < names@.len() implies names@[i]@ != names@[i2]@ by {
                    if i2 < before.len() {
                        assert(names@[i] == before[i]);
                        assert(names@[i2] == before[i2]);
                    } else {
                        assert(names@[i] == before[i]);
                    }
                }
                assert forall|i: int|
                    0 <= i < names@.len() implies listed(first_v, first_v.len() as int, #[trigger] names@[i]@)
                        || listed(second@, j + 1, names@[i]@) by {
                    if i < before.len() {
                        assert(names@[i] == before[i]);
                        if listed(second@, j as int, names@[i]@) {
                            let y = choose|y: int| 0 <= y < j && #[trigger] second@[y]@ == names@[i]@;
                            assert(second@[y]@ == names@[i]@);
                        }
                    } else {
                        assert(second@[j as int]@ == names@[i]@);
                    }
                }
                assert forall|y: int| 0 <= y < j + 1 implies listed(names@, names@.len() as int, #[trigger] second@[y]@) by {
                    if y < j {
                        let i = choose|i: int| 0 <= i < before.len() && #[trigger] before[i]@ == second@[y]@;
                        assert(names@[i] == before[i]);
                    } else {
                        assert(names@[before.len() as int]@ == second@[y]@);
                    }
                }
            }
        } else {
            proof {
                assert forall|i: int|
                    0 <= i < names@.len() implies listed(first_v, first_v.len() as int, #[trigger] names@[i]@)
                        || listed(second@, j + 1, names@[i]@) by {
                    if listed(second@, j as int, names@[i]@) {
                        let y = choose|y: int| 0 <= y < j && #[trigger] second@[y]@ == names@[i]@;
                        assert(second@[y]@ == names@[i]@);
                    }
                }
                assert(listed(names@, names@.len() as int, second@[j as int]@));
            }
        }
        j = j + 1;
    }
    names
}

impl Iox2JsonServer {
    /// The server's invariant: both stores are well formed.
    pub closed spec fn wf(&self) -> bool {
        self.store.wf() && self.const_store.wf()
    }

    /// A server with empty stores, but for its description under
    /// `const:server_info`.
    pub fn new(config: ServerConfig) -> (r: Result<Iox2JsonServer, StoreError>)
        ensures
            match setup_consts(config@, Map::empty()) {
                Ok(mc) => r matches Ok(s) && s.wf() && s@.config == config@ && s@.info == info_of(config@)
                    && s@.plain == Map::<Seq<char>, ItemView>::empty() && s@.consts == mc,
                Err(e) => r matches Err(x) && x@ == e,
            },
    {
        Self::with_stores(config, JsonStore::new(), ConstJsonStore::new())
    }

    /// A server around the given stores; the write-once store must not
    /// hold `const:server_info`, where the server's description goes.
    pub fn with_stores(config: ServerConfig, store: JsonStore, const_store: ConstJsonStore) -> (r: Result<Iox2JsonServer, StoreError>)
        requires
            store.wf(),
            const_store.wf(),
        ensures
            match setup_consts(config@, const_store@) {
                Ok(mc) => r matches Ok(s) && s.wf() && s@.config == config@ && s@.info == info_of(config@)
                    && s@.plain == store@ && s@.consts == mc,
                Err(e) => r matches Err(x) && x@ == e,
            },
    {
        match config.validate() {
            Ok(()) => {},
            Err(e) => return Err(e),
        }
        let info = config.info();
        let mut const_store = const_store;
        if const_store.key_exists(SERVER_INFO_KEY) {
            return Err(StoreError::InvalidConfig(owned("\"const:server_info\" is reserved by the server")));
        }
        let text = info.to_json_text();
        match const_store.initialize_json(SERVER_INFO_KEY, text.as_str()) {
            Ok(()) => {},
            Err(e) => return Err(e),
        }
        Ok(Iox2JsonServer { config, info, store, const_store })
    }

    /// `DEL`: refused when any key given is a constant key.
    fn routed_del(&mut self, frame: CommandFrame, now: u64) -> (r: ResponseFrame)
        requires
            old(self).wf(),
            frame@.command == "DEL"@,
        ensures
            final(self).wf(),
            final(self)@.config == old(self)@.config,
            final(self)@.info == old(self)@.info,
            if names_const_key(frame@.args) {
                final(self)@.plain == old(self)@.plain && final(self)@.consts == old(self)@.consts && r@
                    == const_delete_error()
            } else {
                final(self)@.consts == old(self)@.consts && handled(
                    old(self)@.plain,
                    frame@,
                    now as int,
                    final(self)@.plain,
                    r@,
                )
            },
    {
        let mut i: usize = 0;
        while i < frame.args.len()
            invariant
                i <= frame.args@.len(),
                self.wf(),
                self@ == old(self)@,
                forall|j: int| 0 <= j < i ==> !is_const_key(#[trigger] lossy_key(frame@.args[j])),
            decreases frame.args@.len() - i,
        {
            let key = frame.args[i].as_lossy_key();
            proof {
                assert(frame@.args[i as int] == frame.args@[i as int]@);
            }
            if is_const(key.as_str()) {
                return ResponseFrame::error("ERR constant keys cannot be deleted");
            }
            i = i + 1;
        }
        self.store.handle_at(frame, now)
    }

    /// `EXISTS` across both stores.
    fn routed_exists(&mut self, args: &[WireValue], now: u64) -> (r: ResponseFrame)
        requires
            old(self).wf(),
        ensures
            final(self).wf(),
            final(self)@.config == old(self)@.config,
            final(self)@.info == old(self)@.info,
            final(self)@.consts == old(self)@.consts,
            final(self)@.plain == routed_exists_fold(
                old(self)@.plain,
                old(self)@.consts,
                values_view(args@),
                args@.len() as nat,
                now as int,
            ).0,
            r@ == integer_view(
                count_value(
                    routed_exists_fold(
                        old(self)@.plain,
                        old(self)@.consts,
                        values_view(args@),
                        args@.len() as nat,
                        now as int,
                    ).1,
                ),
            ),
    {
        let ghost vv = values_view(args@);
        let ghost mc = self@.consts;
        let mut count: usize = 0;
        let mut i: usize = 0;
        while i < args.len()
            invariant
                i <= args@.len(),
                count <= i,
                vv == values_view(args@),
                self.wf(),
                self@.config == old(self)@.config,
                self@.info == old(self)@.info,
                self@.consts == mc,
                mc == old(self)@.consts,
                self@.plain == routed_exists_fold(old(self)@.plain, mc, vv, i as nat, now as int).0,
                count as nat == routed_exists_fold(old(self)@.plain, mc, vv, i as nat, now as int).1,
            decreases args@.len() - i,
        {
            let key = args[i].as_lossy_key();
            proof {
                assert(vv[i as int] == args@[i as int]@);
            }
            let found = if is_const(key.as_str()) {
                self.const_store.key_exists(key.as_str())
            } else {
                self.store.exists_at(key.as_str(), now)
            };
            if found {
                count = count + 1;
            }
            i = i + 1;
        }
        crate::store::count_response(count)
    }

    /// `MGET` across both stores.
    fn routed_mget(&mut self, args: &[WireValue], now: u64) -> (r: ResponseFrame)
        requires
            old(self).wf(),
        ensures
            final(self).wf(),
            final(self)@.config == old(self)@.config,
            final(self)@.info == old(self)@.info,
            final(self)@.consts == old(self)@.consts,
            final(self)@.plain == routed_mget_fold(
                old(self)@.plain,
                old(self)@.consts,
                values_view(args@),
                args@.len() as nat,
                now as int,
            ).0,
            r@ == array_view(
                routed_mget_fold(
                    old(self)@.plain,
                    old(self)@.consts,
                    values_view(args@),
                    args@.len() as nat,
                    now as int,
                ).1,
            ),
    {
        let ghost vv = values_view(args@);
        let ghost mc = self@.consts;
        let mut out: Vec<Option<WireValue>> = Vec::new();
        let mut i: usize = 0;
        while i < args.len()
            invariant
                i <= args@.len(),
                vv == values_view(args@),
                self.wf(),
                self@.config == old(self)@.config,
                self@.info == old(self)@.info,
                self@.consts == mc,
                mc == old(self)@.consts,
                self@.plain == routed_mget_fold(old(self)@.plain, mc, vv, i as nat, now as int).0,
                opt_values_view(out@) == routed_mget_fold(old(self)@.plain, mc, vv, i as nat, now as int).1,
            decreases args@.len() - i,
        {
            let key = args[i].as_lossy_key();
            proof {
                assert(vv[i as int] == args@[i as int]@);
            }
            let v = if is_const(key.as_str()) {
                self.const_store.value_for_mget(key.as_str())
            } else {
                self.store.mget_value_at(key.as_str(), now)
            };
            let ghost before = out@;
            out.push(v);
            proof {
                assert(opt_values_view(out@) =~= opt_values_view(before).push(crate::codec::opt_view(v)));
            }
            i = i + 1;
        }
        ResponseFrame::array(out)
    }

    /// `KEYS` across both stores: the plain store's keys first, then the
    /// constant keys it does not also hold.
    fn routed_keys(&mut self, args: &[WireValue], now: u64) -> (r: ResponseFrame)
        requires
            old(self).wf(),
        ensures
            final(self).wf(),
            final(self)@.config == old(self)@.config,
            final(self)@.info == old(self)@.info,
            final(self)@.consts == old(self)@.consts,
            args@.len() == 1 ==> routed_keys_outcome(
                old(self)@.plain,
                old(self)@.consts,
                lossy_key(args@[0]@),
                now as int,
                final(self)@.plain,
                r@,
            ),
            args@.len() != 1 ==> final(self)@.plain == old(self)@.plain && r@ == wrong_args("KEYS"@),
    {
        if args.len() != 1 {
            return crate::store::wrong_args_response("KEYS");
        }
        let pattern = args[0].as_lossy_key();
        let ghost re = glob_regex(pattern@);
        let ghost ms = self@.plain;
        let ghost mc = self@.consts;
        let first = self.store.matching_keys_at(pattern.as_str(), now);
        let second = self.const_store.matching_keys(pattern.as_str());
        let ghost t = choose|t: int| 0 <= t <= u64::MAX && #[trigger] keys_found(mc, pattern@, t, mc, second@);
        proof {
            self.const_store.lemma_const_entries();
            assert(never_expires(mc));
            assert forall|k: Seq<char>| #[trigger] lookup(mc, k, t) == (if mc.contains_key(k) {
                Some(mc[k])
            } else {
                None
            }) by {
                lemma_lookup_never_expires(mc, k, t);
            }
        }
        let ghost first_v = first@;
        let names = merge_names(first, &second);
        let values = name_values(&names);
        let r = ResponseFrame::array(values);
        proof {
            let a = r@.array;
            assert(a.len() == names@.len());
            assert forall|x: int| 0 <= x < a.len() implies #[trigger] a[x] == Some(WireValueView::Str(names@[x]@)) by {
                assert(opt_values_view(values@)[x] == Some(WireValueView::Str(names@[x]@)));
            }
            if regex_accepts(re) {
                assert(a.no_duplicates()) by {
                    assert forall|x: int, y: int| 0 <= x < a.len() && 0 <= y < a.len() && x != y implies a[x] != a[y] by {
                        if x < y {
                            assert(names@[x]@ != names@[y]@);
                        } else {
                            assert(names@[y]@ != names@[x]@);
                        }
                        assert(a[x] == Some(WireValueView::Str(names@[x]@)));
                        assert(a[y] == Some(WireValueView::Str(names@[y]@)));
                    }
                }
                assert forall|x: int| 0 <= x < a.len() implies (#[trigger] a[x] matches Some(WireValueView::Str(k))
                    && live_in_either(ms, mc, k, now as int) && regex_matches(re, k)) by {
                    assert(a[x] == Some(WireValueView::Str(names@[x]@)));
                    let k = names@[x]@;
                    if exists|x2: int| 0 <= x2 < first_v.len() && first_v[x2]@ == k {
                        let x2 = choose|x2: int| 0 <= x2 < first_v.len() && first_v[x2]@ == k;
                        assert(lookup(ms, first_v[x2]@, now as int) is Some);
                    } else {
                        let y = choose|y: int| 0 <= y < second@.len() && second@[y]@ == k;
                        assert(lookup(mc, second@[y]@, t) is Some);
                    }
                }
                assert forall|k: Seq<char>|
                    live_in_either(ms, mc, k, now as int) && regex_matches(re, k) implies #[trigger] a.contains(
                    Some(WireValueView::Str(k)),
                ) by {
                    if lookup(ms, k, now as int) is Some {
                        let x = choose|x: int| 0 <= x < first_v.len() && first_v[x]@ == k;
                        assert(names@[x]@ == first_v[x]@);
                        assert(a[x] == Some(WireValueView::Str(k)));
                    } else {
                        assert(lookup(mc, k, t) is Some);
                        let y = choose|y: int| 0 <= y < second@.len() && second@[y]@ == k;
                        let i = choose|i: int| 0 <= i < names@.len() && names@[i]@ == second@[y]@;
                        assert(a[i] == Some(WireValueView::Str(k)));
                    }
                }
            } else {
                assert(first_v.len() == 0);
                assert(second@.len() == 0);
                assert(names@.len() == 0) by {
                    if names@.len() > 0 {
                        assert(listed(first_v, first_v.len() as int, names@[0]@) || listed(
                            second@,
                            second@.len() as int,
                            names@[0]@,
                        ));
                    }
                }
                assert(a =~= Seq::<Option<WireValueView>>::empty());
            }
        }
        r
    }
}

impl Iox2JsonServer {
    /// Answers a command at time `now` on the plain store's clock; commands
    /// on constant keys go to the write-once store.
    pub fn handle_at(&mut self, frame: CommandFrame, now: u64) -> (r: ResponseFrame)
        requires
            old(self).wf(),
        ensures
            final(self).wf(),
            final(self)@.config == old(self)@.config,
            final(self)@.info == old(self)@.info,
            server_handled(
                old(self)@.plain,
                old(self)@.consts,
                frame@,
                now as int,
                final(self)@.plain,
                final(self)@.consts,
                r@,
            ),
    {
        let ghost f = frame@;
        let keyed: bool;
        let del: bool;
        let exists_cmd: bool;
        let mget: bool;
        let keys: bool;
        {
            let c = frame.command.as_str();
            keyed = str_eq(c, "GET") || str_eq(c, "SET") || str_eq(c, "JSON.GET") || str_eq(c, "JSON.SET")
                || str_eq(c, "DUMP") || str_eq(c, "LOAD");
            del = str_eq(c, "DEL");
            exists_cmd = str_eq(c, "EXISTS");
            mget = str_eq(c, "MGET");
            keys = str_eq(c, "KEYS");
        }
        proof {
            reveal_strlit("GET");
            reveal_strlit("SET");
            reveal_strlit("JSON.GET");
            reveal_strlit("JSON.SET");
            reveal_strlit("DUMP");
            reveal_strlit("LOAD");
            reveal_strlit("DEL");
            reveal_strlit("EXISTS");
            reveal_strlit("MGET");
            reveal_strlit("KEYS");
            assert("GET"@[0] == 'G' && "SET"@[0] == 'S' && "DUMP"@[0] == 'D' && "LOAD"@[0] == 'L'
                && "DEL"@[0] == 'D' && "MGET"@[0] == 'M' && "KEYS"@[0] == 'K');
            assert(values_view(frame.args@) == f.args);
            if frame.args@.len() > 0 {
                assert(f.args[0] == frame.args@[0]@);
            }
        }
        if keyed {
            if frame.args.len() > 0 {
                let key = frame.args[0].as_lossy_key();
                if is_const(key.as_str()) {
                    return self.const_store.handle_at(frame, now);
                }
            }
            self.store.handle_at(frame, now)
        } else if del {
            self.routed_del(frame, now)
        } else if exists_cmd {
            self.routed_exists(frame.args.as_slice(), now)
        } else if mget {
            self.routed_mget(frame.args.as_slice(), now)
        } else if keys {
            self.routed_keys(frame.args.as_slice(), now)
        } else {
            self.store.handle_at(frame, now)
        }
    }

    /// `handle_at` at the time the plain store's clock reads.
    pub fn handle(&mut self, frame: CommandFrame) -> (r: ResponseFrame)
        requires
            old(self).wf(),
        ensures
            final(self).wf(),
            final(self)@.config == old(self)@.config,
            final(self)@.info == old(self)@.info,
            exists|t: int|
                0 <= t <= u64::MAX && #[trigger] server_handled(
                    old(self)@.plain,
                    old(self)@.consts,
                    frame@,
                    t,
                    final(self)@.plain,
                    final(self)@.consts,
                    r@,
                ),
    {
        let now = self.store.now();
        let ghost f = frame@;
        let r = self.handle_at(frame, now);
        assert(server_handled(old(self)@.plain, old(self)@.consts, f, now as int, self@.plain, self@.consts, r@));
        r
    }

    /// Decodes a command, answers it at time `now` and encodes the answer;
    /// a payload that does not decode is answered with the codec error.
    pub fn handle_payload_at(&mut self, payload: &[u8], now: u64) -> (r: Result<Vec<u8>, StoreError>)
        requires
            old(self).wf(),
        ensures
            final(self).wf(),
            final(self)@.config == old(self)@.config,
            final(self)@.info == old(self)@.info,
            r is Ok,
            server_answers_payload(
                old(self)@.plain,
                old(self)@.consts,
                payload@,
                now as int,
                final(self)@.plain,
                final(self)@.consts,
                r->Ok_0@,
            ),
    {
        let response = match decode_command(payload) {
            Ok(command) => self.handle_at(command, now),
            Err(e) => crate::store::error_with("ERR codec ", e.text().as_str()),
        };
        let encoded = encode_response(&response);
        proof {
            if let Ok(f) = spec_decode_command(payload@) {
                assert(server_handled(
                    old(self)@.plain,
                    old(self)@.consts,
                    f,
                    now as int,
                    self@.plain,
                    self@.consts,
                    response@,
                ));
            }
        }
        match encoded {
            Ok(out) => Ok(out),
            Err(e) => Err(StoreError::Codec(e)),
        }
    }

    /// `handle_payload_at` at the time the plain store's clock reads.
    pub fn handle_payload(&mut self, payload: &[u8]) -> (r: Result<Vec<u8>, StoreError>)
        requires
            old(self).wf(),
        ensures
            final(self).wf(),
            final(self)@.config == old(self)@.config,
            final(self)@.info == old(self)@.info,
            r is Ok,
            exists|t: int|
                0 <= t <= u64::MAX && #[trigger] server_answers_payload(
                    old(self)@.plain,
                    old(self)@.consts,
                    payload@,
                    t,
                    final(self)@.plain,
                    final(self)@.consts,
                    r->Ok_0@,
                ),
    {
        let now = self.store.now();
        self.handle_payload_at(payload, now)
    }
}

} // verus!
