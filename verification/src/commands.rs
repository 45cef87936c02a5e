//! What each command does to a store and answers, stated over the store's
//! map from keys to entries at a given time.

use vstd::prelude::*;
use crate::codec::{
    array_view, bulk_view, error_view, integer_view, lossy_key, nil_view, pong_view, simple_view,
    CommandView, ResponseView, WireValueView, codec_error_text,
};
use crate::dump::{dump_error_text, spec_decode_dump, spec_encode_dump};
use crate::glob::{glob_regex, regex_accepts, regex_matches};
use crate::item::{live, ItemView};
use crate::json::{compact_or_same, json_compact, json_error, json_quote};
use crate::table::{lookup, purge_all, purged};
use crate::text::{debug_quoted, lossy_utf8, upper_case};
use crate::ttl::{spec_ttl, Ttl, MILLIS_SCALE, SECONDS_SCALE};

verus! {

/// A store's entries, by key.
pub type StoreMap = Map<Seq<char>, ItemView>;

/// The prefix of the write-once keys.
pub open spec fn const_prefix() -> Seq<char> {
    "const:"@
}

/// Whether a key lies in the write-once namespace.
pub open spec fn is_const_key(k: Seq<char>) -> bool {
    const_prefix().is_prefix_of(k)
}

pub open spec fn wrong_args(command: Seq<char>) -> ResponseView {
    error_view("ERR wrong number of arguments for "@ + command)
}

pub open spec fn const_key_error(k: Seq<char>) -> ResponseView {
    error_view("ERR constant key "@ + debug_quoted(k) + " is already set"@)
}

pub open spec fn const_prefix_error() -> ResponseView {
    error_view("ERR constant key must start with \"const:\""@)
}

pub open spec fn nx_xx_error() -> ResponseView {
    error_view("ERR NX and XX options are mutually exclusive"@)
}

pub open spec fn no_expiry_error() -> ResponseView {
    error_view("ERR expiration is not allowed for constant keys"@)
}

pub open spec fn expire_time_error() -> ResponseView {
    error_view("ERR invalid expire time in SET"@)
}

pub open spec fn root_path_error() -> ResponseView {
    error_view("ERR only root path '$' is supported"@)
}

/// Whether a JSON path names the document root.
pub open spec fn is_root_path(p: Seq<char>) -> bool {
    p == "$"@ || p == "."@
}

/// The option name an argument stands for.
pub open spec fn option_name(v: WireValueView) -> Seq<char> {
    upper_case(lossy_key(v))
}

// ---------------------------------------------------------------------------
// Reading values back
// ---------------------------------------------------------------------------

/// What `JSON.GET` answers for a stored value: compact JSON text.
pub open spec fn json_get_value(v: WireValueView) -> WireValueView {
    match v {
        WireValueView::Null => WireValueView::Str("null"@),
        WireValueView::Bytes(b) => WireValueView::Str(lossy_utf8(b)),
        WireValueView::Str(t) => WireValueView::Str(
            match json_compact(t) {
                Some(c) => c,
                None => json_quote(t),
            },
        ),
        WireValueView::Json(t) => WireValueView::Str(compact_or_same(t)),
    }
}

/// What `GET` answers for an entry: JSON entries as compact JSON text,
/// others as stored.
pub open spec fn get_value(it: ItemView) -> WireValueView {
    if it.is_json {
        json_get_value(it.value)
    } else {
        it.value
    }
}

/// The text `JSON.SET` reads as JSON from its value argument.
pub open spec fn json_text_of(v: WireValueView) -> Seq<char> {
    match v {
        WireValueView::Null => "null"@,
        WireValueView::Bytes(b) => lossy_utf8(b),
        WireValueView::Str(t) => t,
        WireValueView::Json(t) => t,
    }
}

// ---------------------------------------------------------------------------
// SET
// ---------------------------------------------------------------------------

/// The options of a `SET`: a time to live in nanoseconds, and the flags.
pub struct SetOptions {
    pub ttl: Option<nat>,
    pub nx: bool,
    pub xx: bool,
    pub get: bool,
}

/// The outcome of reading the options of a `SET`.
pub enum SetScan {
    Done(SetOptions),
    Failed(ResponseView),
    /// An expiry time past what the clock can add.
    Overflow,
}

/// Reads the options of a `SET` from argument `i` on.
pub open spec fn set_scan(args: Seq<WireValueView>, i: int, o: SetOptions, const_mode: bool) -> SetScan
    decreases args.len() - i,
{
    if i < 0 || i >= args.len() {
        SetScan::Done(o)
    } else {
        let opt = option_name(args[i]);
        if (opt == "EX"@ || opt == "PX"@) && i + 1 < args.len() {
            if const_mode {
                SetScan::Failed(no_expiry_error())
            } else {
                let scale = if opt == "EX"@ {
                    SECONDS_SCALE
                } else {
                    MILLIS_SCALE
                };
                match spec_ttl(lossy_key(args[i + 1]), scale as nat) {
                    Ttl::Invalid => SetScan::Failed(expire_time_error()),
                    Ttl::TooLarge => SetScan::Overflow,
                    Ttl::Nanos(n) => set_scan(
                        args,
                        i + 2,
                        SetOptions { ttl: Some(n as nat), ..o },
                        const_mode,
                    ),
                }
            }
        } else if opt == "NX"@ {
            set_scan(args, i + 1, SetOptions { nx: true, ..o }, const_mode)
        } else if opt == "XX"@ {
            set_scan(args, i + 1, SetOptions { xx: true, ..o }, const_mode)
        } else if opt == "GET"@ {
            set_scan(args, i + 1, SetOptions { get: true, ..o }, const_mode)
        } else {
            SetScan::Failed(error_view("ERR unsupported SET option "@ + opt))
        }
    }
}

/// The options of a `SET` before any is read.
pub open spec fn no_set_options() -> SetOptions {
    SetOptions { ttl: None, nx: false, xx: false, get: false }
}

/// `SET key value [EX s | PX ms] [NX | XX] [GET]`; in the write-once
/// store, the key must be a new constant key and may not expire.
pub open spec fn spec_set(m: StoreMap, args: Seq<WireValueView>, now: int, const_mode: bool) -> (StoreMap, ResponseView) {
    if args.len() < 2 {
        (m, wrong_args("SET"@))
    } else {
        let key = lossy_key(args[0]);
        let m1 = purged(m, key, now);
        let old = lookup(m, key, now);
        if const_mode && !is_const_key(key) {
            (m, const_prefix_error())
        } else if const_mode && old is Some {
            (m1, const_key_error(key))
        } else {
            match set_scan(args, 2, no_set_options(), const_mode) {
                SetScan::Failed(r) => (m1, r),
                SetScan::Overflow => (m1, expire_time_error()),
                SetScan::Done(o) => if o.nx && o.xx {
                    (m1, nx_xx_error())
                } else if (o.nx && old is Some) || (o.xx && old is None) {
                    (m1, nil_view())
                } else {
                    (
                        m1.insert(
                            key,
                            ItemView {
                                value: args[1],
                                expires_at: match o.ttl {
                                    Some(n) => Some(now + n),
                                    None => None,
                                },
                                is_json: false,
                            },
                        ),
                        if o.get {
                            match old {
                                Some(it) => bulk_view(it.value),
                                None => nil_view(),
                            }
                        } else {
                            simple_view("OK"@)
                        },
                    )
                },
            }
        }
    }
}

// ---------------------------------------------------------------------------
// GET, DEL, EXISTS, MGET, KEYS, DUMP
// ---------------------------------------------------------------------------

/// `GET key`.
pub open spec fn spec_get(m: StoreMap, args: Seq<WireValueView>, now: int) -> (StoreMap, ResponseView) {
    if args.len() != 1 {
        (m, wrong_args("GET"@))
    } else {
        let k = lossy_key(args[0]);
        (
            purged(m, k, now),
            match lookup(m, k, now) {
                Some(it) => bulk_view(get_value(it)),
                None => nil_view(),
            },
        )
    }
}

/// `DEL key...` over the first `n` keys: the map after it and how many
/// live entries it removed.
pub open spec fn del_fold(m: StoreMap, args: Seq<WireValueView>, n: nat, now: int) -> (StoreMap, nat)
    decreases n,
{
    if n == 0 || n > args.len() {
        (m, 0)
    } else {
        let (m1, c) = del_fold(m, args, (n - 1) as nat, now);
        let k = lossy_key(args[n - 1]);
        (m1.remove(k), c + if lookup(m1, k, now) is Some {
            1nat
        } else {
            0nat
        })
    }
}

/// `EXISTS key...` over the first `n` keys: the map after it and how many
/// of them hold a live entry.
pub open spec fn exists_fold(m: StoreMap, args: Seq<WireValueView>, n: nat, now: int) -> (StoreMap, nat)
    decreases n,
{
    if n == 0 || n > args.len() {
        (m, 0)
    } else {
        let (m1, c) = exists_fold(m, args, (n - 1) as nat, now);
        let k = lossy_key(args[n - 1]);
        (purged(m1, k, now), c + if lookup(m1, k, now) is Some {
            1nat
        } else {
            0nat
        })
    }
}

/// `MGET key...` over the first `n` keys: the map after it and the values
/// read.
pub open spec fn mget_fold(m: StoreMap, args: Seq<WireValueView>, n: nat, now: int) -> (StoreMap, Seq<Option<WireValueView>>)
    decreases n,
{
    if n == 0 || n > args.len() {
        (m, Seq::empty())
    } else {
        let (m1, items) = mget_fold(m, args, (n - 1) as nat, now);
        let k = lossy_key(args[n - 1]);
        (
            purged(m1, k, now),
            items.push(
                match lookup(m1, k, now) {
                    Some(it) => Some(get_value(it)),
                    None => None,
                },
            ),
        )
    }
}

/// A count as `i64`, saturated.
pub open spec fn count_value(n: nat) -> int {
    if n > i64::MAX {
        i64::MAX as int
    } else {
        n as int
    }
}

/// What `KEYS pattern` may do: where the pattern's regular expression is
/// refused, nothing; otherwise it drops every expired entry and answers
/// each live key that matches, once, in some order.
pub open spec fn keys_outcome(m: StoreMap, pattern: Seq<char>, now: int, m2: StoreMap, r: ResponseView) -> bool {
    let re = glob_regex(pattern);
    if !regex_accepts(re) {
        m2 == m && r == array_view(Seq::empty())
    } else {
        &&& m2 == purge_all(m, now)
        &&& r.kind == crate::codec::ResponseKind::Array
        &&& r.value is None
        &&& r.message is None
        &&& r.array.no_duplicates()
        &&& forall|i: int|
            0 <= i < r.array.len() ==> (#[trigger] r.array[i] matches Some(WireValueView::Str(
                k,
            )) && lookup(m, k, now) is Some && regex_matches(re, k))
        &&& forall|k: Seq<char>|
            lookup(m, k, now) is Some && regex_matches(re, k) ==> #[trigger] r.array.contains(
                Some(WireValueView::Str(k)),
            )
    }
}

/// `DUMP key`.
pub open spec fn spec_dump(m: StoreMap, args: Seq<WireValueView>, now: int) -> (StoreMap, ResponseView) {
    if args.len() != 1 {
        (m, wrong_args("DUMP"@))
    } else {
        let k = lossy_key(args[0]);
        (
            purged(m, k, now),
            match lookup(m, k, now) {
                Some(it) => bulk_view(WireValueView::Bytes(spec_encode_dump(it, now))),
                None => nil_view(),
            },
        )
    }
}

// ---------------------------------------------------------------------------
// LOAD, JSON.SET, JSON.GET
// ---------------------------------------------------------------------------

/// Reads `NX` / `XX` flags from argument `i` on; any other option is
/// refused with `unsupported` followed by its name.
pub open spec fn flag_scan(args: Seq<WireValueView>, i: int, nx: bool, xx: bool, unsupported: Seq<char>) -> Result<(bool, bool), ResponseView>
    decreases args.len() - i,
{
    if i < 0 || i >= args.len() {
        Ok((nx, xx))
    } else {
        let opt = option_name(args[i]);
        if opt == "NX"@ {
            flag_scan(args, i + 1, true, xx, unsupported)
        } else if opt == "XX"@ {
            flag_scan(args, i + 1, nx, true, unsupported)
        } else {
            Err(error_view(unsupported + opt))
        }
    }
}

/// `LOAD key payload [NX | XX]`: restores an entry from a `DUMP` payload;
/// in the write-once store, only a new constant key that does not expire.
pub open spec fn spec_load(m: StoreMap, args: Seq<WireValueView>, now: int, const_mode: bool) -> (StoreMap, ResponseView) {
    if args.len() < 2 {
        (m, wrong_args("LOAD"@))
    } else {
        let key = lossy_key(args[0]);
        let m1 = purged(m, key, now);
        let old = lookup(m, key, now);
        if const_mode && !is_const_key(key) {
            (m, const_prefix_error())
        } else {
            match flag_scan(args, 2, false, false, "ERR unsupported LOAD option "@) {
                Err(r) => (m1, r),
                Ok((nx, xx)) => if nx && xx {
                    (m1, nx_xx_error())
                } else if const_mode && old is Some {
                    (m1, if nx {
                        nil_view()
                    } else {
                        const_key_error(key)
                    })
                } else if const_mode && xx {
                    (m1, nil_view())
                } else if !const_mode && ((nx && old is Some) || (xx && old is None)) {
                    (m1, nil_view())
                } else {
                    match spec_decode_dump(args[1], now) {
                        Err(e) => (m1, error_view("ERR invalid dump payload: "@ + dump_error_text(e))),
                        Ok(it) => if const_mode && it.expires_at is Some {
                            (m1, no_expiry_error())
                        } else {
                            (m1.insert(key, it), simple_view("OK"@))
                        },
                    }
                },
            }
        }
    }
}

/// `JSON.SET key path json [NX | XX]`, for the root path: stores the
/// document in compact form.
pub open spec fn spec_json_set(m: StoreMap, args: Seq<WireValueView>, now: int, const_mode: bool) -> (StoreMap, ResponseView) {
    if args.len() < 3 {
        (m, wrong_args("JSON.SET"@))
    } else {
        let key = lossy_key(args[0]);
        let m1 = purged(m, key, now);
        let old = lookup(m, key, now);
        if const_mode && !is_const_key(key) {
            (m, const_prefix_error())
        } else if const_mode && old is Some {
            (m1, const_key_error(key))
        } else if !is_root_path(lossy_key(args[1])) {
            (if const_mode {
                m1
            } else {
                m
            }, root_path_error())
        } else {
            match flag_scan(args, 3, false, false, "ERR unsupported JSON.SET option "@) {
                Err(r) => (m1, r),
                Ok((nx, xx)) => if nx && xx {
                    (m1, nx_xx_error())
                } else if (nx && old is Some) || (xx && old is None) {
                    (m1, nil_view())
                } else {
                    let text = json_text_of(args[2]);
                    match json_compact(text) {
                        None => (m1, error_view("ERR invalid JSON: "@ + json_error(text))),
                        Some(c) => (
                            m1.insert(
                                key,
                                ItemView {
                                    value: WireValueView::Json(c),
                                    expires_at: None,
                                    is_json: true,
                                },
                            ),
                            simple_view("OK"@),
                        ),
                    }
                },
            }
        }
    }
}

/// `JSON.GET key [path]`, for the root path.
pub open spec fn spec_json_get(m: StoreMap, args: Seq<WireValueView>, now: int) -> (StoreMap, ResponseView) {
    if !(1 <= args.len() <= 2) {
        (m, wrong_args("JSON.GET"@))
    } else if args.len() == 2 && !is_root_path(lossy_key(args[1])) {
        (m, root_path_error())
    } else {
        let k = lossy_key(args[0]);
        (
            purged(m, k, now),
            match lookup(m, k, now) {
                Some(it) => bulk_view(json_get_value(it.value)),
                None => nil_view(),
            },
        )
    }
}

// ---------------------------------------------------------------------------
// Dispatch
// ---------------------------------------------------------------------------

/// What a command does to a store and answers, at time `now`. (`KEYS`
/// with its one argument is described by `keys_outcome` instead.)
pub open spec fn spec_handle(m: StoreMap, f: CommandView, now: int) -> (StoreMap, ResponseView) {
    let c = f.command;
    let a = f.args;
    if c == "PING"@ {
        (m, if a.len() == 0 {
            pong_view()
        } else {
            bulk_view(a[0])
        })
    } else if c == "SET"@ {
        spec_set(m, a, now, false)
    } else if c == "GET"@ {
        spec_get(m, a, now)
    } else if c == "DEL"@ {
        let (m2, n) = del_fold(m, a, a.len(), now);
        (m2, integer_view(count_value(n)))
    } else if c == "EXISTS"@ {
        let (m2, n) = exists_fold(m, a, a.len(), now);
        (m2, integer_view(count_value(n)))
    } else if c == "MGET"@ {
        let (m2, items) = mget_fold(m, a, a.len(), now);
        (m2, array_view(items))
    } else if c == "KEYS"@ {
        (m, wrong_args("KEYS"@))
    } else if c == "DUMP"@ {
        spec_dump(m, a, now)
    } else if c == "LOAD"@ {
        spec_load(m, a, now, false)
    } else if c == "JSON.SET"@ {
        spec_json_set(m, a, now, false)
    } else if c == "JSON.GET"@ {
        spec_json_get(m, a, now)
    } else {
        (m, error_view("ERR unsupported command "@ + c))
    }
}

/// Whether a command is `KEYS` with its one argument.
pub open spec fn is_keys(f: CommandView) -> bool {
    f.command == "KEYS"@ && f.args.len() == 1
}

/// What handling a command at time `now` may do to a store with map `m`,
/// leaving map `m2` and answering `r`.
pub open spec fn handled(m: StoreMap, f: CommandView, now: int, m2: StoreMap, r: ResponseView) -> bool {
    if is_keys(f) {
        keys_outcome(m, lossy_key(f.args[0]), now, m2, r)
    } else {
        (m2, r) == spec_handle(m, f, now)
    }
}

/// The answer to a payload that does not decode as a command.
pub open spec fn codec_error_answer(e: crate::codec::CodecErrorView) -> ResponseView {
    error_view("ERR codec "@ + codec_error_text(e))
}

/// Whether every entry lies under a constant key and never expires: what
/// the write-once store holds.
pub open spec fn const_entries(m: StoreMap) -> bool {
    forall|k: Seq<char>| #[trigger] m.contains_key(k) ==> is_const_key(k) && m[k].expires_at is None
}

pub open spec fn const_delete_error() -> ResponseView {
    error_view("ERR constant keys cannot be deleted"@)
}

/// What the write-once store may do on a command: `SET`, `JSON.SET` and
/// `LOAD` only create constant keys that do not expire, `DEL` is refused,
/// and every other command is answered as a plain store answers it.
pub open spec fn const_handled(m: StoreMap, f: CommandView, now: int, m2: StoreMap, r: ResponseView) -> bool {
    let c = f.command;
    if c == "SET"@ {
        (m2, r) == spec_set(m, f.args, now, true)
    } else if c == "JSON.SET"@ {
        (m2, r) == spec_json_set(m, f.args, now, true)
    } else if c == "DEL"@ {
        m2 == m && r == const_delete_error()
    } else if c == "LOAD"@ {
        (m2, r) == spec_load(m, f.args, now, true)
    } else {
        handled(m, f, now, m2, r)
    }
}

} // verus!
