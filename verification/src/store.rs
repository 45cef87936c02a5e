//! The in-memory store and the commands it answers.

use vstd::prelude::*;
use std::time::Instant;
use crate::clock::{instant_now, nanos_since};
use crate::codec::{
    decode_command, encode_response, lossy_key, values_view, CodecError, CodecErrorView,
    CommandFrame, ResponseFrame, ResponseView, WireValue, WireValueView,
    spec_decode_command, spec_encode_response, codec_error_text, error_view, law_response_roundtrip,
    normalized, response_packable, spec_decode_response,
};
use crate::commands::{
    StoreMap, is_const_key, wrong_args, const_key_error, const_prefix_error, is_root_path,
    option_name, json_get_value, get_value, json_text_of, SetOptions, set_scan, no_set_options,
    spec_set, spec_get, del_fold, exists_fold, mget_fold, count_value, keys_outcome, spec_dump,
    flag_scan, spec_load, spec_json_set, spec_json_get, handled, codec_error_answer,
    const_entries, const_handled,
};
use crate::dump::{decode_dump_payload, encode_dump_payload};
use crate::glob::{glob_regex, regex_accepts, regex_matches, GlobMatcher};
use crate::item::{live, ItemView, StoredValue};
use crate::json::{compact_json, compact_json_text, quote_json, json_compact, json_error};
use crate::laws::{law_const_write_once, never_expires, lemma_lookup_never_expires, lemma_purge_all_never_expires};
use crate::table::{lookup, purge_all, purged, Table, lemma_map_contains, lemma_map_index};
use crate::text::{append, from_utf8_lossy, owned, str_eq, to_upper, debug_quote, starts_with};
use crate::ttl::{parse_ttl, Ttl, MILLIS_SCALE, SECONDS_SCALE};

pub use crate::server::{
    Iox2JsonServer, ServerConfig, ServerInfo, CONST_KEY_PREFIX, DEFAULT_MAX_PAYLOAD_SIZE, DEFAULT_POLL_NS,
    SERVER_INFO_KEY, SERVER_NAME,
};

verus! {

/// Errors of the store and of the server around it.
#[derive(Debug)]
pub enum StoreError {
    Codec(CodecError),
    Io(String),
    InvalidConfig(String),
    Json(String),
}

/// The mathematical model of a [`StoreError`].
pub enum StoreErrorView {
    Codec(CodecErrorView),
    Io(Seq<char>),
    InvalidConfig(Seq<char>),
    Json(Seq<char>),
}

impl View for StoreError {
    type V = StoreErrorView;

    open spec fn view(&self) -> StoreErrorView {
        match self {
            StoreError::Codec(e) => StoreErrorView::Codec(e@),
            StoreError::Io(m) => StoreErrorView::Io(m@),
            StoreError::InvalidConfig(m) => StoreErrorView::InvalidConfig(m@),
            StoreError::Json(m) => StoreErrorView::Json(m@),
        }
    }
}

/// The text of a store error, as its message reads.
pub open spec fn store_error_text(e: StoreErrorView) -> Seq<char> {
    match e {
        StoreErrorView::Codec(c) => "codec error: "@ + codec_error_text(c),
        StoreErrorView::Io(m) => "io error: "@ + m,
        StoreErrorView::InvalidConfig(m) => "invalid configuration: "@ + m,
        StoreErrorView::Json(m) => "json error: "@ + m,
    }
}

impl StoreError {
    /// The error's message.
    pub fn text(&self) -> (r: String)
        ensures
            r@ == store_error_text(self@),
    {
        match self {
            StoreError::Codec(e) => {
                let mut t = owned("codec error: ");
                append(&mut t, e.text().as_str());
                t
            },
            StoreError::Io(m) => {
                let mut t = owned("io error: ");
                append(&mut t, m.as_str());
                t
            },
            StoreError::InvalidConfig(m) => {
                let mut t = owned("invalid configuration: ");
                append(&mut t, m.as_str());
                t
            },
            StoreError::Json(m) => {
                let mut t = owned("json error: ");
                append(&mut t, m.as_str());
                t
            },
        }
    }
}

// ---------------------------------------------------------------------------
// Responses
// ---------------------------------------------------------------------------

pub(crate) fn error_with(prefix: &str, tail: &str) -> (r: ResponseFrame)
    ensures
        r@ == error_view(prefix@ + tail@),
{
    let mut m = owned(prefix);
    append(&mut m, tail);
    ResponseFrame::error(m.as_str())
}

pub(crate) fn wrong_args_response(command: &str) -> (r: ResponseFrame)
    ensures
        r@ == wrong_args(command@),
{
    error_with("ERR wrong number of arguments for ", command)
}

fn const_key_response(key: &str) -> (r: ResponseFrame)
    ensures
        r@ == const_key_error(key@),
{
    let mut m = owned("ERR constant key ");
    let q = debug_quote(key);
    append(&mut m, q.as_str());
    append(&mut m, " is already set");
    ResponseFrame::error(m.as_str())
}

fn const_prefix_response() -> (r: ResponseFrame)
    ensures
        r@ == const_prefix_error(),
{
    ResponseFrame::error("ERR constant key must start with \"const:\"")
}

/// Whether a key lies in the write-once namespace.
pub fn is_const(key: &str) -> (r: bool)
    ensures
        r == is_const_key(key@),
{
    starts_with(key, "const:")
}

fn is_root(path: &str) -> (r: bool)
    ensures
        r == is_root_path(path@),
{
    str_eq(path, "$") || str_eq(path, ".")
}

fn option_of(v: &WireValue) -> (r: String)
    ensures
        r@ == option_name(v@),
{
    let k = v.as_lossy_key();
    to_upper(k.as_str())
}

/// What `JSON.GET` answers for a stored value.
pub fn json_get_value_of(v: &WireValue) -> (r: WireValue)
    ensures
        r@ == json_get_value(v@),
{
    match v {
        WireValue::Null => WireValue::Str(owned("null")),
        WireValue::Bytes(b) => WireValue::Str(from_utf8_lossy(b.as_slice())),
        WireValue::Str(t) => match compact_json(t.as_str()) {
            Ok(c) => WireValue::Str(c),
            Err(_) => WireValue::Str(quote_json(t.as_str())),
        },
        WireValue::Json(t) => WireValue::Str(compact_json_text(t.as_str())),
    }
}

/// What `GET` answers for an entry.
pub fn get_value_of(it: &StoredValue) -> (r: WireValue)
    ensures
        r@ == get_value(it@),
{
    if it.is_json {
        json_get_value_of(&it.value)
    } else {
        it.value.duplicate()
    }
}

fn json_text(v: &WireValue) -> (r: String)
    ensures
        r@ == json_text_of(v@),
{
    match v {
        WireValue::Null => owned("null"),
        WireValue::Bytes(b) => from_utf8_lossy(b.as_slice()),
        WireValue::Str(t) => t.clone(),
        WireValue::Json(t) => t.clone(),
    }
}

pub(crate) fn count_response(n: usize) -> (r: ResponseFrame)
    ensures
        r@ == crate::codec::integer_view(count_value(n as nat)),
{
    let v: i64 = if n as u64 > 9223372036854775807u64 {
        9223372036854775807i64
    } else {
        n as i64
    };
    ResponseFrame::integer(v)
}

// ---------------------------------------------------------------------------
// The store
// ---------------------------------------------------------------------------

/// An in-memory store of keys with values, expiry times and a JSON flag.
pub struct JsonStore {
    table: Table,
    epoch: Instant,
}

impl View for JsonStore {
    type V = StoreMap;

    closed spec fn view(&self) -> StoreMap {
        self.table.map()
    }
}

/// What looking up the keys that match a glob pattern at time `now` may do:
/// where the pattern's regular expression is refused, nothing is dropped
/// and no key is found; otherwise every expired entry is dropped, and the
/// keys found are the live keys that match, each once.
pub open spec fn keys_found(m: StoreMap, pattern: Seq<char>, now: int, m2: StoreMap, r: Seq<String>) -> bool {
    let re = glob_regex(pattern);
    &&& regex_accepts(re) ==> m2 == purge_all(m, now)
    &&& !regex_accepts(re) ==> m2 == m && r.len() == 0
    &&& forall|i: int, j: int| 0 <= i < j < r.len() ==> r[i]@ != r[j]@
    &&& forall|i: int|
        0 <= i < r.len() ==> lookup(m, #[trigger] r[i]@, now) is Some && regex_matches(re, r[i]@)
    &&& forall|k: Seq<char>|
        #![trigger lookup(m, k, now)]
        lookup(m, k, now) is Some && regex_accepts(re) && regex_matches(re, k) ==> exists|i: int|
            0 <= i < r.len() && r[i]@ == k
}

/// What answering the bytes of a command at time `now` may do to a store.
/// A payload that does not decode leaves the store as it was and is
/// answered with the codec error.
pub open spec fn answers_payload(m: StoreMap, payload: Seq<u8>, now: int, m2: StoreMap, out: Seq<u8>) -> bool {
    match spec_decode_command(payload) {
        Ok(f) => exists|rv: ResponseView| #[trigger] handled(m, f, now, m2, rv) && out == spec_encode_response(rv),
        Err(e) => m2 == m && out == spec_encode_response(codec_error_answer(e)),
    }
}

/// What the store sends back for a payload decodes to its answer: the
/// answer to the decoded command, or the codec error, in the form
/// `normalized` gives, wherever the answer fits the frame's length fields.
pub proof fn law_answer_decodes(m: StoreMap, payload: Seq<u8>, now: int, m2: StoreMap, out: Seq<u8>)
    requires
        answers_payload(m, payload, now, m2, out),
    ensures
        exists|rv: ResponseView|
            out == spec_encode_response(rv) && (response_packable(rv) ==> spec_decode_response(out)
                == Ok::<ResponseView, CodecErrorView>(normalized(rv))),
{
    let rv = match spec_decode_command(payload) {
        Ok(f) => choose|rv: ResponseView| #[trigger] handled(m, f, now, m2, rv) && out == spec_encode_response(rv),
        Err(e) => codec_error_answer(e),
    };
    if response_packable(rv) {
        law_response_roundtrip(rv);
    }
    assert(out == spec_encode_response(rv));
}

/// The models of the results of a command.
pub open spec fn outcome(m: StoreMap, r: ResponseFrame) -> (StoreMap, ResponseView) {
    (m, r@)
}

impl JsonStore {
    /// The store's own invariant: no key occurs twice.
    pub closed spec fn wf(&self) -> bool {
        self.table.wf()
    }

    /// An empty store, whose clock starts now.
    pub fn new() -> (s: JsonStore)
        ensures
            s.wf(),
            s@ == Map::<Seq<char>, ItemView>::empty(),
    {
        JsonStore { table: Table::new(), epoch: instant_now() }
    }

    /// The store's clock: nanoseconds since it was made (at most `u64::MAX`).
    pub fn now(&self) -> u64 {
        let ns = nanos_since(&self.epoch);
        if ns > 18446744073709551615u128 {
            18446744073709551615u64
        } else {
            ns as u64
        }
    }

    fn get_item(&mut self, key: &str, now: u64) -> (r: Option<StoredValue>)
        requires
            old(self).wf(),
        ensures
            final(self).wf(),
            final(self)@ == purged(old(self)@, key@, now as int),
            match lookup(old(self)@, key@, now as int) {
                Some(it) => r matches Some(x) && x@ == it,
                None => r is None,
            },
    {
        self.table.purge_if_expired(key, now as u128);
        let r = self.table.get(key);
        proof {
            let m = old(self)@;
            if m.contains_key(key@) && live(m[key@], now as int) {
                assert(purged(m, key@, now as int) == m);
            }
        }
        r
    }

    /// Inserts an entry directly (used to seed a store).
    fn put(&mut self, key: String, item: StoredValue)
        requires
            old(self).wf(),
        ensures
            final(self).wf(),
            final(self)@ == old(self)@.insert(key@, item@),
    {
        self.table.insert(key, item);
    }

    fn ping(&self, args: &[WireValue]) -> (r: ResponseFrame)
        ensures
            r@ == (if args@.len() == 0 {
                crate::codec::pong_view()
            } else {
                crate::codec::bulk_view(args@[0]@)
            }),
    {
        if args.len() == 0 {
            ResponseFrame::pong()
        } else {
            ResponseFrame::bulk(args[0].duplicate())
        }
    }

    /// `SET`; `const_mode` for the write-once store.
    fn set_inner(&mut self, args: &[WireValue], now: u64, const_mode: bool) -> (r: ResponseFrame)
        requires
            old(self).wf(),
        ensures
            final(self).wf(),
            outcome(final(self)@, r) == spec_set(old(self)@, values_view(args@), now as int, const_mode),
    {
        let ghost vv = values_view(args@);
        if args.len() < 2 {
            return wrong_args_response("SET");
        }
        let key = args[0].as_lossy_key();
        if const_mode && !is_const(key.as_str()) {
            return const_prefix_response();
        }
        let prev = self.get_item(key.as_str(), now);
        if const_mode && prev.is_some() {
            return const_key_response(key.as_str());
        }
        let mut ttl: Option<u128> = None;
        let mut nx = false;
        let mut xx = false;
        let mut get_old = false;
        let mut idx: usize = 2;
        while idx < args.len()
            invariant
                2 <= idx <= args@.len(),
                vv == values_view(args@),
                self.wf(),
                self@ == purged(old(self)@, key@, now as int),
                key@ == lossy_key(vv[0]),
                !(const_mode && !is_const_key(key@)),
                !(const_mode && prev is Some),
                match lookup(old(self)@, key@, now as int) {
                    Some(it) => prev matches Some(x) && x@ == it,
                    None => prev is None,
                },
                set_scan(vv, 2, no_set_options(), const_mode) == set_scan(
                    vv,
                    idx as int,
                    SetOptions {
                        ttl: match ttl {
                            Some(n) => Some(n as nat),
                            None => None,
                        },
                        nx,
                        xx,
                        get: get_old,
                    },
                    const_mode,
                ),
                ttl matches Some(n) ==> n < crate::ttl::TTL_LIMIT_NS,
            decreases args@.len() - idx,
        {
            let opt = option_of(&args[idx]);
            let is_ex = str_eq(opt.as_str(), "EX");
            let is_px = str_eq(opt.as_str(), "PX");
            if (is_ex || is_px) && idx + 1 < args.len() {
                if const_mode {
                    return ResponseFrame::error("ERR expiration is not allowed for constant keys");
                }
                let scale = if is_ex {
                    SECONDS_SCALE
                } else {
                    MILLIS_SCALE
                };
                let text = args[idx + 1].as_lossy_key();
                match parse_ttl(text.as_str(), scale) {
                    Ttl::Nanos(n) => {
                        ttl = Some(n);
                        idx = idx + 2;
                    },
                    _ => {
                        return ResponseFrame::error("ERR invalid expire time in SET");
                    },
                }
            } else if str_eq(opt.as_str(), "NX") {
                nx = true;
                idx = idx + 1;
            } else if str_eq(opt.as_str(), "XX") {
                xx = true;
                idx = idx + 1;
            } else if str_eq(opt.as_str(), "GET") {
                get_old = true;
                idx = idx + 1;
            } else {
                return error_with("ERR unsupported SET option ", opt.as_str());
            }
        }
        if nx && xx {
            return ResponseFrame::error("ERR NX and XX options are mutually exclusive");
        }
        if (nx && prev.is_some()) || (xx && prev.is_none()) {
            return ResponseFrame::nil();
        }
        let expires_at: Option<u128> = match ttl {
            Some(n) => Some(now as u128 + n),
            None => None,
        };
        let item = StoredValue { value: args[1].duplicate(), expires_at, is_json: false };
        self.put(key, item);
        if get_old {
            match prev {
                Some(it) => ResponseFrame::bulk(it.value),
                None => ResponseFrame::nil(),
            }
        } else {
            ResponseFrame::simple("OK")
        }
    }

    /// `GET`.
    fn get(&mut self, args: &[WireValue], now: u64) -> (r: ResponseFrame)
        requires
            old(self).wf(),
        ensures
            final(self).wf(),
            outcome(final(self)@, r) == spec_get(old(self)@, values_view(args@), now as int),
    {
        if args.len() != 1 {
            return wrong_args_response("GET");
        }
        let key = args[0].as_lossy_key();
        match self.get_item(key.as_str(), now) {
            Some(it) => ResponseFrame::bulk(get_value_of(&it)),
            None => ResponseFrame::nil(),
        }
    }

    /// `DEL`: removes each live key given; answers how many it removed.
    fn del(&mut self, args: &[WireValue], now: u64) -> (r: ResponseFrame)
        requires
            old(self).wf(),
        ensures
            final(self).wf(),
            final(self)@ == del_fold(old(self)@, values_view(args@), args@.len() as nat, now as int).0,
            r@ == crate::codec::integer_view(
                count_value(del_fold(old(self)@, values_view(args@), args@.len() as nat, now as int).1),
            ),
    {
        let ghost vv = values_view(args@);
        let mut count: usize = 0;
        let mut i: usize = 0;
        while i < args.len()
            invariant
                i <= args@.len(),
                count <= i,
                vv == values_view(args@),
                self.wf(),
                self@ == del_fold(old(self)@, vv, i as nat, now as int).0,
                count as nat == del_fold(old(self)@, vv, i as nat, now as int).1,
            decreases args@.len() - i,
        {
            let ghost m1 = self@;
            let key = args[i].as_lossy_key();
            self.table.purge_if_expired(key.as_str(), now as u128);
            let removed = self.table.remove(key.as_str());
            proof {
                assert(vv[i as int] == args@[i as int]@);
                assert(self@ =~= m1.remove(key@));
            }
            if removed {
                count = count + 1;
            }
            i = i + 1;
        }
        count_response(count)
    }

    /// Whether a key holds a live entry; drops it if it has expired.
    pub(crate) fn exists_at(&mut self, key: &str, now: u64) -> (r: bool)
        requires
            old(self).wf(),
        ensures
            final(self).wf(),
            final(self)@ == purged(old(self)@, key@, now as int),
            r == lookup(old(self)@, key@, now as int) is Some,
    {
        let it = self.get_item(key, now);
        it.is_some()
    }

    /// The value `MGET` answers for a key; drops the key if it has expired.
    pub(crate) fn mget_value_at(&mut self, key: &str, now: u64) -> (r: Option<WireValue>)
        requires
            old(self).wf(),
        ensures
            final(self).wf(),
            final(self)@ == purged(old(self)@, key@, now as int),
            crate::codec::opt_view(r) == (match lookup(old(self)@, key@, now as int) {
                Some(it) => Some(get_value(it)),
                None => None,
            }),
    {
        match self.get_item(key, now) {
            Some(it) => Some(get_value_of(&it)),
            None => None,
        }
    }

    /// `EXISTS`: how many of the keys given hold a live entry.
    fn count_existing(&mut self, args: &[WireValue], now: u64) -> (r: ResponseFrame)
        requires
            old(self).wf(),
        ensures
            final(self).wf(),
            final(self)@ == exists_fold(old(self)@, values_view(args@), args@.len() as nat, now as int).0,
            r@ == crate::codec::integer_view(
                count_value(exists_fold(old(self)@, values_view(args@), args@.len() as nat, now as int).1),
            ),
    {
        let ghost vv = values_view(args@);
        let mut count: usize = 0;
        let mut i: usize = 0;
        while i < args.len()
            invariant
                i <= args@.len(),
                count <= i,
                vv == values_view(args@),
                self.wf(),
                self@ == exists_fold(old(self)@, vv, i as nat, now as int).0,
                count as nat == exists_fold(old(self)@, vv, i as nat, now as int).1,
            decreases args@.len() - i,
        {
            let key = args[i].as_lossy_key();
            let found = self.exists_at(key.as_str(), now);
            proof {
                assert(vv[i as int] == args@[i as int]@);
            }
            if found {
                count = count + 1;
            }
            i = i + 1;
        }
        count_response(count)
    }

    /// `MGET`: the value of each key given, nil where it has none.
    fn mget(&mut self, args: &[WireValue], now: u64) -> (r: ResponseFrame)
        requires
            old(self).wf(),
        ensures
            final(self).wf(),
            final(self)@ == mget_fold(old(self)@, values_view(args@), args@.len() as nat, now as int).0,
            r@ == crate::codec::array_view(
                mget_fold(old(self)@, values_view(args@), args@.len() as nat, now as int).1,
            ),
    {
        let ghost vv = values_view(args@);
        let mut out: Vec<Option<WireValue>> = Vec::new();
        let mut i: usize = 0;
        while i < args.len()
            invariant
                i <= args@.len(),
                vv == values_view(args@),
                self.wf(),
                self@ == mget_fold(old(self)@, vv, i as nat, now as int).0,
                crate::codec::opt_values_view(out@) == mget_fold(old(self)@, vv, i as nat, now as int).1,
            decreases args@.len() - i,
        {
            let key = args[i].as_lossy_key();
            let v = self.mget_value_at(key.as_str(), now);
            let ghost before = out@;
            out.push(v);
            proof {
                assert(vv[i as int] == args@[i as int]@);
                assert(crate::codec::opt_values_view(out@) =~= crate::codec::opt_values_view(before).push(
                    crate::codec::opt_view(v),
                ));
            }
            i = i + 1;
        }
        ResponseFrame::array(out)
    }

    /// The live keys that match a glob pattern, each once, in the order the
    /// table holds them. Where the pattern's regular expression is refused,
    /// nothing is dropped and no key is answered; otherwise every expired
    /// entry is dropped first.
    pub(crate) fn matching_keys_at(&mut self, pattern: &str, now: u64) -> (r: Vec<String>)
        requires
            old(self).wf(),
        ensures
            final(self).wf(),
            keys_found(old(self)@, pattern@, now as int, final(self)@, r@),
    {
        let matcher = match GlobMatcher::compile(pattern) {
            Some(m) => m,
            None => return Vec::new(),
        };
        let ghost re = glob_regex(pattern@);
        self.table.purge_all(now as u128);
        let ghost es = self.table.entries@;
        let mut out: Vec<String> = Vec::new();
        let mut j: usize = 0;
        while j < self.table.entries.len()
            invariant
                j <= es.len(),
                es == self.table.entries@,
                crate::table::distinct_keys(es),
                matcher.source() == re,
                forall|i: int|
                    #![trigger out@[i]]
                    0 <= i < out@.len() ==> exists|t: int|
                        0 <= t < j && #[trigger] es[t].key@ == out@[i]@ && regex_matches(re, out@[i]@),
                forall|i: int, i2: int| 0 <= i < i2 < out@.len() ==> out@[i]@ != out@[i2]@,
                forall|t: int|
                    0 <= t < j && regex_matches(re, #[trigger] es[t].key@) ==> exists|i: int|
                        0 <= i < out@.len() && out@[i]@ == es[t].key@,
            decreases es.len() - j,
        {
            let k = &self.table.entries[j].key;
            if matcher.is_match(k.as_str()) {
                let ghost before = out@;
                out.push(k.clone());
                proof {
                    assert(out@[before.len() as int]@ == es[j as int].key@);
                    assert forall|i: int| 0 <= i < before.len() implies out@[i]@ != es[j as int].key@ by {
                        let t = choose|t: int| 0 <= t < j && #[trigger] es[t].key@ == before[i]@ && regex_matches(re, before[i]@);
                        assert(out@[i] == before[i]);
                    }
                    assert forall|i: int|
                        #![trigger out@[i]]
                        0 <= i < out@.len() implies exists|t: int|
                            0 <= t < j + 1 && #[trigger] es[t].key@ == out@[i]@ && regex_matches(re, out@[i]@) by {
                        if i < before.len() {
                            assert(out@[i] == before[i]);
                        } else {
                            assert(es[j as int].key@ == out@[i]@);
                        }
                    }
                    assert forall|t: int|
                        0 <= t < j + 1 && regex_matches(re, #[trigger] es[t].key@) implies exists|i: int|
                            0 <= i < out@.len() && out@[i]@ == es[t].key@ by {
                        if t < j {
                            let i = choose|i: int| 0 <= i < before.len() && before[i]@ == es[t].key@;
                            assert(out@[i] == before[i]);
                        } else {
                            assert(out@[before.len() as int]@ == es[t].key@);
                        }
                    }
                }
            }
            j = j + 1;
        }
        proof {
            let m = old(self)@;
            assert forall|i: int| 0 <= i < out@.len() implies lookup(m, #[trigger] out@[i]@, now as int) is Some
                && regex_matches(re, out@[i]@) by {
                let t = choose|t: int| 0 <= t < es.len() && #[trigger] es[t].key@ == out@[i]@ && regex_matches(re, out@[i]@);
                lemma_map_index(es, t);
            }
            assert forall|k: Seq<char>|
                #![trigger lookup(m, k, now as int)]
                lookup(m, k, now as int) is Some && regex_accepts(re) && regex_matches(re, k) implies exists|i: int|
                    0 <= i < out@.len() && out@[i]@ == k by {
                assert(purge_all(m, now as int).contains_key(k));
                lemma_map_contains(es, k);
                let t = choose|t: int| 0 <= t < es.len() && es[t].key@ == k;
                assert(regex_matches(re, es[t].key@));
            }
        }
        out
    }

    /// `KEYS pattern`.
    fn keys(&mut self, args: &[WireValue], now: u64) -> (r: ResponseFrame)
        requires
            old(self).wf(),
        ensures
            final(self).wf(),
            args@.len() == 1 ==> keys_outcome(old(self)@, lossy_key(args@[0]@), now as int, final(self)@, r@),
            args@.len() != 1 ==> final(self)@ == old(self)@ && r@ == wrong_args("KEYS"@),
    {
        if args.len() != 1 {
            return wrong_args_response("KEYS");
        }
        let pattern = args[0].as_lossy_key();
        let names = self.matching_keys_at(pattern.as_str(), now);
        let mut out: Vec<Option<WireValue>> = Vec::new();
        let mut i: usize = 0;
        while i < names.len()
            invariant
                i <= names@.len(),
                out@.len() == i,
                forall|t: int|
                    0 <= t < i ==> #[trigger] crate::codec::opt_view(out@[t]) == Some(
                        WireValueView::Str(names@[t]@),
                    ),
            decreases names@.len() - i,
        {
            out.push(Some(WireValue::Str(names[i].clone())));
            i = i + 1;
        }
        let r = ResponseFrame::array(out);
        proof {
            let m = old(self)@;
            let re = glob_regex(pattern@);
            let a = r@.array;
            assert(a.len() == names@.len());
            assert forall|t: int| 0 <= t < a.len() implies #[trigger] a[t] == Some(
                WireValueView::Str(names@[t]@),
            ) by {
                assert(crate::codec::opt_view(out@[t]) == Some(WireValueView::Str(names@[t]@)));
            }
            assert(a.no_duplicates()) by {
                assert forall|t: int, u: int| 0 <= t < a.len() && 0 <= u < a.len() && t != u implies a[t]
                    != a[u] by {
                    if t < u {
                        assert(names@[t]@ != names@[u]@);
                    } else {
                        assert(names@[u]@ != names@[t]@);
                    }
                    assert(a[t] == Some(WireValueView::Str(names@[t]@)));
                    assert(a[u] == Some(WireValueView::Str(names@[u]@)));
                }
            }
            assert forall|t: int| 0 <= t < a.len() implies (#[trigger] a[t] matches Some(
                WireValueView::Str(k),
            ) && lookup(m, k, now as int) is Some && regex_matches(re, k)) by {
                assert(a[t] == Some(WireValueView::Str(names@[t]@)));
                assert(lookup(m, names@[t]@, now as int) is Some);
            }
            if regex_accepts(re) {
                assert forall|k: Seq<char>|
                    lookup(m, k, now as int) is Some && regex_matches(re, k) implies #[trigger] a.contains(
                    Some(WireValueView::Str(k)),
                ) by {
                    let t = choose|t: int| 0 <= t < names@.len() && names@[t]@ == k;
                    assert(a[t] == Some(WireValueView::Str(k)));
                }
            } else {
                assert(a =~= Seq::<Option<WireValueView>>::empty());
            }
        }
        r
    }

    /// `DUMP`.
    fn dump(&mut self, args: &[WireValue], now: u64) -> (r: ResponseFrame)
        requires
            old(self).wf(),
        ensures
            final(self).wf(),
            outcome(final(self)@, r) == spec_dump(old(self)@, values_view(args@), now as int),
    {
        if args.len() != 1 {
            return wrong_args_response("DUMP");
        }
        let key = args[0].as_lossy_key();
        match self.get_item(key.as_str(), now) {
            Some(it) => ResponseFrame::bulk(WireValue::Bytes(encode_dump_payload(&it, now as u128))),
            None => ResponseFrame::nil(),
        }
    }

    /// `LOAD`; `const_mode` for the write-once store.
    fn load_inner(&mut self, args: &[WireValue], now: u64, const_mode: bool) -> (r: ResponseFrame)
        requires
            old(self).wf(),
        ensures
            final(self).wf(),
            outcome(final(self)@, r) == spec_load(old(self)@, values_view(args@), now as int, const_mode),
    {
        let ghost vv = values_view(args@);
        if args.len() < 2 {
            return wrong_args_response("LOAD");
        }
        let key = args[0].as_lossy_key();
        if const_mode && !is_const(key.as_str()) {
            return const_prefix_response();
        }
        let prev = self.get_item(key.as_str(), now);
        let (nx, xx) = match scan_flags(args, 2, "ERR unsupported LOAD option ") {
            Ok(f) => f,
            Err(e) => return e,
        };
        if nx && xx {
            return ResponseFrame::error("ERR NX and XX options are mutually exclusive");
        }
        if const_mode {
            if prev.is_some() {
                return if nx {
                    ResponseFrame::nil()
                } else {
                    const_key_response(key.as_str())
                };
            }
            if xx {
                return ResponseFrame::nil();
            }
        } else if (nx && prev.is_some()) || (xx && prev.is_none()) {
            return ResponseFrame::nil();
        }
        let item = match decode_dump_payload(&args[1], now) {
            Ok(it) => it,
            Err(e) => {
                return error_with("ERR invalid dump payload: ", e.as_str());
            },
        };
        if const_mode && item.expires_at.is_some() {
            return ResponseFrame::error("ERR expiration is not allowed for constant keys");
        }
        self.put(key, item);
        ResponseFrame::simple("OK")
    }

    /// `JSON.SET`, for the root path; `const_mode` for the write-once store.
    fn json_set_inner(&mut self, args: &[WireValue], now: u64, const_mode: bool) -> (r: ResponseFrame)
        requires
            old(self).wf(),
        ensures
            final(self).wf(),
            outcome(final(self)@, r) == spec_json_set(old(self)@, values_view(args@), now as int, const_mode),
    {
        let ghost vv = values_view(args@);
        if args.len() < 3 {
            return wrong_args_response("JSON.SET");
        }
        let key = args[0].as_lossy_key();
        if const_mode {
            if !is_const(key.as_str()) {
                return const_prefix_response();
            }
            if self.exists_at(key.as_str(), now) {
                return const_key_response(key.as_str());
            }
        }
        let path = args[1].as_lossy_key();
        if !is_root(path.as_str()) {
            return ResponseFrame::error("ERR only root path '$' is supported");
        }
        let ghost mid = self@;
        let prev = self.get_item(key.as_str(), now);
        proof {
            assert(purged(mid, key@, now as int) == purged(old(self)@, key@, now as int));
            assert(lookup(mid, key@, now as int) == lookup(old(self)@, key@, now as int));
        }
        let (nx, xx) = match scan_flags(args, 3, "ERR unsupported JSON.SET option ") {
            Ok(f) => f,
            Err(e) => return e,
        };
        if nx && xx {
            return ResponseFrame::error("ERR NX and XX options are mutually exclusive");
        }
        if (nx && prev.is_some()) || (xx && prev.is_none()) {
            return ResponseFrame::nil();
        }
        let text = json_text(&args[2]);
        match compact_json(text.as_str()) {
            Ok(c) => {
                let item = StoredValue { value: WireValue::Json(c), expires_at: None, is_json: true };
                self.put(key, item);
                ResponseFrame::simple("OK")
            },
            Err(e) => error_with("ERR invalid JSON: ", e.as_str()),
        }
    }

    /// `JSON.GET`, for the root path.
    fn json_get(&mut self, args: &[WireValue], now: u64) -> (r: ResponseFrame)
        requires
            old(self).wf(),
        ensures
            final(self).wf(),
            outcome(final(self)@, r) == spec_json_get(old(self)@, values_view(args@), now as int),
    {
        if args.len() < 1 || args.len() > 2 {
            return wrong_args_response("JSON.GET");
        }
        if args.len() == 2 {
            let path = args[1].as_lossy_key();
            if !is_root(path.as_str()) {
                return ResponseFrame::error("ERR only root path '$' is supported");
            }
        }
        let key = args[0].as_lossy_key();
        match self.get_item(key.as_str(), now) {
            Some(it) => ResponseFrame::bulk(json_get_value_of(&it.value)),
            None => ResponseFrame::nil(),
        }
    }

    /// Answers a command at time `now` on the store's clock.
    pub fn handle_at(&mut self, frame: CommandFrame, now: u64) -> (r: ResponseFrame)
        requires
            old(self).wf(),
        ensures
            final(self).wf(),
            handled(old(self)@, frame@, now as int, final(self)@, r@),
    {
        let c = frame.command.as_str();
        let args = frame.args.as_slice();
        proof {
            assert(values_view(args@) == frame@.args);
            reveal_strlit("PING");
            reveal_strlit("SET");
            reveal_strlit("GET");
            reveal_strlit("DEL");
            reveal_strlit("EXISTS");
            reveal_strlit("MGET");
            reveal_strlit("KEYS");
            reveal_strlit("DUMP");
            reveal_strlit("LOAD");
            reveal_strlit("JSON.SET");
            reveal_strlit("JSON.GET");
            assert("KEYS"@[0] == 'K' && "PING"@[0] == 'P' && "MGET"@[0] == 'M' && "DUMP"@[0] == 'D'
                && "LOAD"@[0] == 'L');
            if args@.len() > 0 {
                assert(frame@.args[0] == args@[0]@);
            }
        }
        if str_eq(c, "PING") {
            self.ping(args)
        } else if str_eq(c, "SET") {
            self.set_inner(args, now, false)
        } else if str_eq(c, "GET") {
            self.get(args, now)
        } else if str_eq(c, "DEL") {
            self.del(args, now)
        } else if str_eq(c, "EXISTS") {
            self.count_existing(args, now)
        } else if str_eq(c, "MGET") {
            self.mget(args, now)
        } else if str_eq(c, "KEYS") {
            self.keys(args, now)
        } else if str_eq(c, "DUMP") {
            self.dump(args, now)
        } else if str_eq(c, "LOAD") {
            self.load_inner(args, now, false)
        } else if str_eq(c, "JSON.SET") {
            self.json_set_inner(args, now, false)
        } else if str_eq(c, "JSON.GET") {
            self.json_get(args, now)
        } else {
            error_with("ERR unsupported command ", c)
        }
    }
}

impl JsonStore {
    /// Answers a command at the time the store's clock reads.
    pub fn handle(&mut self, frame: CommandFrame) -> (r: ResponseFrame)
        requires
            old(self).wf(),
        ensures
            final(self).wf(),
            exists|t: int| 0 <= t <= u64::MAX && handled(old(self)@, frame@, t, final(self)@, r@),
    {
        let now = self.now();
        let ghost f = frame@;
        let r = self.handle_at(frame, now);
        assert(handled(old(self)@, f, now as int, self@, r@));
        r
    }

    /// Decodes a command, answers it at time `now` and encodes the answer; a
    /// payload that does not decode is answered with the codec error.
    pub fn handle_payload_at(&mut self, payload: &[u8], now: u64) -> (r: Result<Vec<u8>, StoreError>)
        requires
            old(self).wf(),
        ensures
            final(self).wf(),
            r is Ok,
            answers_payload(old(self)@, payload@, now as int, final(self)@, r->Ok_0@),
    {
        let response = match decode_command(payload) {
            Ok(command) => self.handle_at(command, now),
            Err(e) => error_with("ERR codec ", e.text().as_str()),
        };
        let encoded = encode_response(&response);
        proof {
            if let Ok(f) = spec_decode_command(payload@) {
                assert(handled(old(self)@, f, now as int, self@, response@));
            }
        }
        match encoded {
            Ok(out) => Ok(out),
            Err(e) => Err(StoreError::Codec(e)),
        }
    }

    /// `handle_payload_at` at the time the store's clock reads.
    pub fn handle_payload(&mut self, payload: &[u8]) -> (r: Result<Vec<u8>, StoreError>)
        requires
            old(self).wf(),
        ensures
            final(self).wf(),
            r is Ok,
            exists|t: int|
                0 <= t <= u64::MAX && #[trigger] answers_payload(old(self)@, payload@, t, final(self)@, r->Ok_0@),
    {
        let now = self.now();
        self.handle_payload_at(payload, now)
    }

    /// Whether a key holds a live entry at the time the store's clock reads;
    /// an expired entry under it is dropped.
    pub fn key_exists(&mut self, key: &str) -> (r: bool)
        requires
            old(self).wf(),
        ensures
            final(self).wf(),
            exists|t: int|
                0 <= t <= u64::MAX && final(self)@ == purged(old(self)@, key@, t) && r == (lookup(
                    old(self)@,
                    key@,
                    t,
                ) is Some),
    {
        let now = self.now();
        self.exists_at(key, now)
    }

    /// The value `MGET` answers for a key at the time the store's clock
    /// reads; an expired entry under it is dropped.
    pub fn value_for_mget(&mut self, key: &str) -> (r: Option<WireValue>)
        requires
            old(self).wf(),
        ensures
            final(self).wf(),
            exists|t: int|
                0 <= t <= u64::MAX && final(self)@ == purged(old(self)@, key@, t)
                    && crate::codec::opt_view(r) == (match lookup(old(self)@, key@, t) {
                    Some(it) => Some(get_value(it)),
                    None => None,
                }),
    {
        let now = self.now();
        self.mget_value_at(key, now)
    }

    /// The live keys that match a glob pattern at the time the store's clock
    /// reads, each once; see `matching_keys_at`.
    pub fn matching_keys(&mut self, pattern: &str) -> (r: Vec<String>)
        requires
            old(self).wf(),
        ensures
            final(self).wf(),
            exists|t: int| 0 <= t <= u64::MAX && #[trigger] keys_found(old(self)@, pattern@, t, final(self)@, r@),
    {
        let now = self.now();
        self.matching_keys_at(pattern, now)
    }
}

// ---------------------------------------------------------------------------
// The write-once store
// ---------------------------------------------------------------------------

/// What seeding the write-once store with a JSON document under a key
/// does: the key must be a new constant key, and the text must be JSON.
pub open spec fn spec_initialize(m: StoreMap, key: Seq<char>, json: Seq<char>) -> (StoreMap, Result<(), StoreErrorView>) {
    if !is_const_key(key) {
        (m, Err(StoreErrorView::InvalidConfig("constant keys must start with \"const:\""@)))
    } else if m.contains_key(key) {
        (m, Err(StoreErrorView::InvalidConfig("constant key is already set: "@ + key)))
    } else {
        match json_compact(json) {
            None => (m, Err(StoreErrorView::Json(json_error(json)))),
            Some(c) => (
                m.insert(key, ItemView { value: WireValueView::Json(c), expires_at: None, is_json: true }),
                Ok(()),
            ),
        }
    }
}

/// The models of a result without a value.
pub open spec fn unit_result(r: Result<(), StoreError>) -> Result<(), StoreErrorView> {
    match r {
        Ok(()) => Ok(()),
        Err(e) => Err(e@),
    }
}

/// A store of write-once constant keys: they can be created but not
/// overwritten, deleted or given an expiry time.
pub struct ConstJsonStore {
    inner: JsonStore,
}

impl View for ConstJsonStore {
    type V = StoreMap;

    closed spec fn view(&self) -> StoreMap {
        self.inner@
    }
}

impl ConstJsonStore {
    /// The store's invariant: a well-formed table holding only constant
    /// keys that never expire.
    pub closed spec fn wf(&self) -> bool {
        self.inner.wf() && const_entries(self.inner@)
    }

    /// A well-formed write-once store holds only constant keys that never
    /// expire.
    pub proof fn lemma_const_entries(&self)
        requires
            self.wf(),
        ensures
            const_entries(self@),
    {
    }

    /// An empty write-once store.
    pub fn new() -> (s: ConstJsonStore)
        ensures
            s.wf(),
            s@ == Map::<Seq<char>, ItemView>::empty(),
    {
        ConstJsonStore { inner: JsonStore::new() }
    }

    /// Seeds the store with a JSON document (given as text) under a new
    /// constant key.
    pub fn initialize_json(&mut self, key: &str, json: &str) -> (r: Result<(), StoreError>)
        requires
            old(self).wf(),
        ensures
            final(self).wf(),
            (final(self)@, unit_result(r)) == spec_initialize(old(self)@, key@, json@),
    {
        if !is_const(key) {
            return Err(StoreError::InvalidConfig(owned("constant keys must start with \"const:\"")));
        }
        let existing = self.inner.table.get(key);
        if existing.is_some() {
            let mut m = owned("constant key is already set: ");
            append(&mut m, key);
            return Err(StoreError::InvalidConfig(m));
        }
        match compact_json(json) {
            Ok(c) => {
                let item = StoredValue { value: WireValue::Json(c), expires_at: None, is_json: true };
                self.inner.put(owned(key), item);
                Ok(())
            },
            Err(e) => Err(StoreError::Json(e)),
        }
    }

    /// Answers a command at time `now`.
    pub fn handle_at(&mut self, frame: CommandFrame, now: u64) -> (r: ResponseFrame)
        requires
            old(self).wf(),
        ensures
            final(self).wf(),
            const_handled(old(self)@, frame@, now as int, final(self)@, r@),
            forall|k: Seq<char>|
                #[trigger] old(self)@.contains_key(k) ==> final(self)@.contains_key(k) && final(self)@[k]
                    == old(self)@[k],
    {
        let ghost m0 = self@;
        let ghost f = frame@;
        let c = frame.command.as_str();
        let args = frame.args.as_slice();
        proof {
            assert(values_view(args@) == frame@.args);
        }
        let r = if str_eq(c, "SET") {
            self.inner.set_inner(args, now, true)
        } else if str_eq(c, "JSON.SET") {
            self.inner.json_set_inner(args, now, true)
        } else if str_eq(c, "DEL") {
            ResponseFrame::error("ERR constant keys cannot be deleted")
        } else if str_eq(c, "LOAD") {
            self.inner.load_inner(args, now, true)
        } else {
            self.inner.handle_at(frame, now)
        };
        proof {
            law_const_write_once(m0, f, now as int, self@, r@);
        }
        r
    }

    /// `handle_at` at the time the store's clock reads.
    pub fn handle(&mut self, frame: CommandFrame) -> (r: ResponseFrame)
        requires
            old(self).wf(),
        ensures
            final(self).wf(),
            exists|t: int| 0 <= t <= u64::MAX && const_handled(old(self)@, frame@, t, final(self)@, r@),
    {
        let now = self.inner.now();
        let ghost f = frame@;
        let r = self.handle_at(frame, now);
        assert(const_handled(old(self)@, f, now as int, self@, r@));
        r
    }

    /// Whether the store holds a key.
    pub fn key_exists(&mut self, key: &str) -> (r: bool)
        requires
            old(self).wf(),
        ensures
            final(self).wf(),
            final(self)@ == old(self)@,
            r == old(self)@.contains_key(key@),
    {
        let now = self.inner.now();
        let r = self.inner.exists_at(key, now);
        proof {
            assert(never_expires(old(self)@));
            lemma_lookup_never_expires(old(self)@, key@, now as int);
        }
        r
    }

    /// The value `MGET` answers for a key.
    pub fn value_for_mget(&mut self, key: &str) -> (r: Option<WireValue>)
        requires
            old(self).wf(),
        ensures
            final(self).wf(),
            final(self)@ == old(self)@,
            crate::codec::opt_view(r) == (if old(self)@.contains_key(key@) {
                Some(get_value(old(self)@[key@]))
            } else {
                None
            }),
    {
        let now = self.inner.now();
        let r = self.inner.mget_value_at(key, now);
        proof {
            assert(never_expires(old(self)@));
            lemma_lookup_never_expires(old(self)@, key@, now as int);
        }
        r
    }

    /// The keys that match a glob pattern, each once; none where the
    /// pattern's regular expression is refused.
    pub fn matching_keys(&mut self, pattern: &str) -> (r: Vec<String>)
        requires
            old(self).wf(),
        ensures
            final(self).wf(),
            final(self)@ == old(self)@,
            exists|t: int| 0 <= t <= u64::MAX && #[trigger] keys_found(old(self)@, pattern@, t, final(self)@, r@),
    {
        let now = self.inner.now();
        let r = self.inner.matching_keys_at(pattern, now);
        proof {
            assert(never_expires(old(self)@));
            lemma_purge_all_never_expires(old(self)@, now as int);
            assert(keys_found(old(self)@, pattern@, now as int, self@, r@));
        }
        r
    }
}

/// Reads `NX` / `XX` flags from argument `start` on; any other option is
/// answered with `unsupported` followed by its name.
fn scan_flags(args: &[WireValue], start: usize, unsupported: &str) -> (r: Result<(bool, bool), ResponseFrame>)
    ensures
        match flag_scan(values_view(args@), start as int, false, false, unsupported@) {
            Ok(f) => r == Ok::<(bool, bool), ResponseFrame>(f),
            Err(e) => r matches Err(x) && x@ == e,
        },
{
    let ghost vv = values_view(args@);
    let mut nx = false;
    let mut xx = false;
    let mut i: usize = start;
    while i < args.len()
        invariant
            vv == values_view(args@),
            start <= i,
            start >= args@.len() ==> i == start,
            flag_scan(vv, start as int, false, false, unsupported@) == flag_scan(vv, i as int, nx, xx, unsupported@),
        decreases args@.len() - i,
    {
        let opt = option_of(&args[i]);
        proof {
            assert(vv[i as int] == args@[i as int]@);
        }
        if str_eq(opt.as_str(), "NX") {
            nx = true;
        } else if str_eq(opt.as_str(), "XX") {
            xx = true;
        } else {
            return Err(error_with(unsupported, opt.as_str()));
        }
        i = i + 1;
    }
    Ok((nx, xx))
}

} // verus!
