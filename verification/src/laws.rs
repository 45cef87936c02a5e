//! What holds of the commands across calls: reading back what was written,
//! removal, expiry, and the write-once namespace.

use vstd::prelude::*;
use vstd::utf8::is_ascii_chars;
use crate::codec::{bulk_view, lossy_key, nil_view, simple_view, CommandView, ResponseView, WireValueView};
use crate::commands::{
    const_entries, const_handled, del_fold, exists_fold, handled, is_keys, json_text_of, mget_fold,
    option_name, set_scan, spec_get, spec_json_get, spec_json_set, spec_load, spec_set,
    spec_dump, is_root_path, SetOptions, SetScan, StoreMap,
};
use crate::dump::{law_dump_load_roundtrip, spec_decode_dump, spec_encode_dump, ttl_ms_left, DumpError};
use crate::item::{live, ItemView};
use crate::json::{compact_or_same, json_compact};
use crate::command_line::{spec_command_parts, ClientCommand};
use crate::server::{server_handled, is_keyed_command};
use crate::table::{lookup, purge_all, purged};
use crate::text::{ascii_upper, nat_text, upper_case};
use crate::ttl::{law_ttl_whole_numbers, MILLIS_SCALE, SECONDS_SCALE, TTL_LIMIT_NS};

verus! {

/// Whether no entry of a map ever expires.
pub open spec fn never_expires(m: StoreMap) -> bool {
    forall|k: Seq<char>| #[trigger] m.contains_key(k) ==> m[k].expires_at is None
}

pub proof fn lemma_lookup_never_expires(m: StoreMap, k: Seq<char>, now: int)
    requires
        never_expires(m),
    ensures
        purged(m, k, now) == m,
        lookup(m, k, now) == (if m.contains_key(k) {
            Some(m[k])
        } else {
            None
        }),
{
}

pub proof fn lemma_purge_all_never_expires(m: StoreMap, now: int)
    requires
        never_expires(m),
    ensures
        purge_all(m, now) == m,
{
    assert(purge_all(m, now) =~= m);
}

proof fn lemma_exists_fold_never_expires(m: StoreMap, a: Seq<WireValueView>, n: nat, now: int)
    requires
        never_expires(m),
    ensures
        exists_fold(m, a, n, now).0 == m,
    decreases n,
{
    if n > 0 && n <= a.len() {
        lemma_exists_fold_never_expires(m, a, (n - 1) as nat, now);
        lemma_lookup_never_expires(m, lossy_key(a[n - 1]), now);
    }
}

proof fn lemma_mget_fold_never_expires(m: StoreMap, a: Seq<WireValueView>, n: nat, now: int)
    requires
        never_expires(m),
    ensures
        mget_fold(m, a, n, now).0 == m,
    decreases n,
{
    if n > 0 && n <= a.len() {
        lemma_mget_fold_never_expires(m, a, (n - 1) as nat, now);
        lemma_lookup_never_expires(m, lossy_key(a[n - 1]), now);
    }
}

/// In the write-once store no option of a `SET` sets an expiry time.
proof fn lemma_const_set_scan(a: Seq<WireValueView>, i: int, o: SetOptions)
    ensures
        set_scan(a, i, o, true) matches SetScan::Done(o2) ==> o2.ttl == o.ttl,
    decreases a.len() - i,
{
    if 0 <= i < a.len() {
        lemma_const_set_scan(a, i + 1, SetOptions { nx: true, ..o });
        lemma_const_set_scan(a, i + 1, SetOptions { xx: true, ..o });
        lemma_const_set_scan(a, i + 1, SetOptions { get: true, ..o });
    }
}

/// A command that the write-once store does not handle itself leaves its
/// entries as they are.
proof fn lemma_other_commands_keep(m: StoreMap, f: CommandView, now: int, m2: StoreMap, r: ResponseView)
    requires
        never_expires(m),
        f.command != "SET"@,
        f.command != "JSON.SET"@,
        f.command != "DEL"@,
        f.command != "LOAD"@,
        handled(m, f, now, m2, r),
    ensures
        m2 == m,
{
    let a = f.args;
    if is_keys(f) {
        lemma_purge_all_never_expires(m, now);
    } else if a.len() > 0 {
        lemma_lookup_never_expires(m, lossy_key(a[0]), now);
        lemma_exists_fold_never_expires(m, a, a.len(), now);
        lemma_mget_fold_never_expires(m, a, a.len(), now);
    } else {
        lemma_exists_fold_never_expires(m, a, a.len(), now);
        lemma_mget_fold_never_expires(m, a, a.len(), now);
    }
}

/// Constant keys are write-once: whatever command the write-once store
/// answers, every entry it held before stays as it was, and it still holds
/// only constant keys that never expire.
pub proof fn law_const_write_once(m: StoreMap, f: CommandView, now: int, m2: StoreMap, r: ResponseView)
    requires
        const_entries(m),
        const_handled(m, f, now, m2, r),
    ensures
        const_entries(m2),
        forall|k: Seq<char>| #[trigger] m.contains_key(k) ==> m2.contains_key(k) && m2[k] == m[k],
{
    let c = f.command;
    let a = f.args;
    assert(never_expires(m));
    if a.len() > 0 {
        lemma_lookup_never_expires(m, lossy_key(a[0]), now);
    }
    if c == "SET"@ {
        lemma_const_set_scan(a, 2, crate::commands::no_set_options());
    } else if c == "JSON.SET"@ {
    } else if c == "DEL"@ {
    } else if c == "LOAD"@ {
    } else {
        lemma_other_commands_keep(m, f, now, m2, r);
    }
}

/// What `SET key value` writes, `GET key` reads back, at any later time.
pub proof fn law_set_then_get(m: StoreMap, key: WireValueView, value: WireValueView, now: int, later: int)
    ensures
        spec_set(m, seq![key, value], now, false).1 == simple_view("OK"@),
        spec_get(spec_set(m, seq![key, value], now, false).0, seq![key], later).1 == bulk_view(value),
{
    let a = seq![key, value];
    assert(set_scan(a, 2, crate::commands::no_set_options(), false) == SetScan::Done(
        crate::commands::no_set_options(),
    ));
}

/// A key set with `PX ms` (the option spelled in any mix of cases) reads
/// back its value until `ms` milliseconds have passed, and reads as missing
/// from then on.
pub proof fn law_set_px_expires(
    m: StoreMap,
    key: WireValueView,
    value: WireValueView,
    px: Seq<char>,
    ms: nat,
    now: int,
    later: int,
)
    requires
        is_ascii_chars(px),
        ascii_upper(px) == "PX"@,
        ms * 1000000 < TTL_LIMIT_NS,
    ensures
        spec_set(m, set_px_args(key, value, px, ms), now, false).1 == simple_view("OK"@),
        later < now + ms * 1000000 ==> spec_get(
            spec_set(m, set_px_args(key, value, px, ms), now, false).0,
            seq![key],
            later,
        ).1 == bulk_view(value),
        later >= now + ms * 1000000 ==> spec_get(
            spec_set(m, set_px_args(key, value, px, ms), now, false).0,
            seq![key],
            later,
        ).1 == nil_view(),
{
    law_set_px_item(m, key, value, px, ms, now);
    reveal_strlit("PX");
    reveal_strlit("EX");
    let a = set_px_args(key, value, px, ms);
    assert(option_name(a[2]) == "PX"@);
    assert(option_name(a[2]) != "EX"@) by {
        assert("PX"@[0] != "EX"@[0]);
    }
    reveal_with_fuel(crate::ttl::pow10, 7);
    law_ttl_whole_numbers(ms, MILLIS_SCALE as nat);
    let o = crate::commands::no_set_options();
    let o2 = SetOptions { ttl: Some(ms * 1000000), ..o };
    assert(set_scan(a, 4, o2, false) == SetScan::Done(o2));
}

/// The arguments of `SET key value PX ms`, with the option spelled `px`
/// (in any mix of cases) and `ms` written in decimal.
pub open spec fn set_px_args(key: WireValueView, value: WireValueView, px: Seq<char>, ms: nat) -> Seq<WireValueView> {
    seq![key, value, WireValueView::Str(px), WireValueView::Str(nat_text(ms))]
}

/// After `DEL key`, `GET key` reads nothing, at any later time.
pub proof fn law_del_then_get(m: StoreMap, key: WireValueView, now: int, later: int)
    ensures
        !del_fold(m, seq![key], 1, now).0.contains_key(lossy_key(key)),
        spec_get(del_fold(m, seq![key], 1, now).0, seq![key], later).1 == nil_view(),
{
    let a = seq![key];
    assert(del_fold(m, a, 0, now) == (m, 0nat));
}

/// What `JSON.SET key $ doc` stores, `JSON.GET key` reads back as the
/// compact form of the document, at any later time.
pub proof fn law_json_set_then_get(
    m: StoreMap,
    key: WireValueView,
    path: WireValueView,
    doc: WireValueView,
    compact: Seq<char>,
    now: int,
    later: int,
)
    requires
        is_root_path(lossy_key(path)),
        json_compact(json_text_of(doc)) == Some(compact),
    ensures
        spec_json_set(m, seq![key, path, doc], now, false).1 == simple_view("OK"@),
        spec_json_get(spec_json_set(m, seq![key, path, doc], now, false).0, seq![key], later).1 == bulk_view(
            WireValueView::Str(compact_or_same(compact)),
        ),
{
    let a = seq![key, path, doc];
    assert(a[1] == path && a[2] == doc);
    assert(crate::commands::flag_scan(a, 3, false, false, "ERR unsupported JSON.SET option "@) == Ok::<
        (bool, bool),
        ResponseView,
    >((false, false)));
}

/// What `DUMP key` answers for a live entry, `LOAD` restores under any
/// key at any later time: the same value and kind, expiring as many whole
/// milliseconds after the load as were left at the dump.
pub proof fn law_dump_then_load(m: StoreMap, key: WireValueView, dumped_at: int, target: StoreMap, new_key: WireValueView, loaded_at: int)
    requires
        lookup(m, lossy_key(key), dumped_at) is Some,
    ensures
        ({
            let it = lookup(m, lossy_key(key), dumped_at)->Some_0;
            let payload = WireValueView::Bytes(spec_encode_dump(it, dumped_at));
            &&& spec_dump(m, seq![key], dumped_at).1 == bulk_view(payload)
            &&& spec_load(target, seq![new_key, payload], loaded_at, false) == (
                purged(target, lossy_key(new_key), loaded_at).insert(
                    lossy_key(new_key),
                    ItemView {
                        value: it.value,
                        is_json: it.is_json,
                        expires_at: match ttl_ms_left(it.expires_at, dumped_at) {
                            Some(ms) => Some(loaded_at + ms * 1000000),
                            None => None,
                        },
                    },
                ),
                simple_view("OK"@),
            )
        }),
{
    let it = lookup(m, lossy_key(key), dumped_at)->Some_0;
    let payload = WireValueView::Bytes(spec_encode_dump(it, dumped_at));
    law_dump_load_roundtrip(it, dumped_at, loaded_at);
    let a = seq![new_key, payload];
    assert(a[1] == payload);
    assert(crate::commands::flag_scan(a, 2, false, false, "ERR unsupported LOAD option "@) == Ok::<
        (bool, bool),
        ResponseView,
    >((false, false)));
}

/// Constant keys survive every command the server answers: the entries of
/// its write-once store stay as they were, and it still holds only
/// constant keys that never expire.
pub proof fn law_server_keeps_constants(
    ms: StoreMap,
    mc: StoreMap,
    f: CommandView,
    now: int,
    ms2: StoreMap,
    mc2: StoreMap,
    r: ResponseView,
)
    requires
        const_entries(mc),
        server_handled(ms, mc, f, now, ms2, mc2, r),
    ensures
        const_entries(mc2),
        forall|k: Seq<char>| #[trigger] mc.contains_key(k) ==> mc2.contains_key(k) && mc2[k] == mc[k],
{
    let a = f.args;
    if is_keyed_command(f.command) && a.len() > 0 && crate::commands::is_const_key(lossy_key(a[0])) {
        law_const_write_once(mc, f, now, mc2, r);
    }
}

/// A key set with `PX ms`, dumped while it lives and loaded under another
/// key, keeps the whole milliseconds it had left at the dump: it reads back
/// its value until that many milliseconds after the load, and reads as
/// missing from then on.
pub proof fn law_set_dump_load_expiry(
    m: StoreMap,
    key: WireValueView,
    value: WireValueView,
    px: Seq<char>,
    ms: nat,
    set_at: int,
    dumped_at: int,
    target: StoreMap,
    new_key: WireValueView,
    loaded_at: int,
    later: int,
)
    requires
        is_ascii_chars(px),
        ascii_upper(px) == "PX"@,
        ms * 1000000 < TTL_LIMIT_NS,
        ms <= u64::MAX,
        set_at <= dumped_at < set_at + ms * 1000000,
    ensures
        ({
            let m1 = spec_set(m, set_px_args(key, value, px, ms), set_at, false).0;
            let left = (set_at + ms * 1000000 - dumped_at) / 1000000;
            let dump = spec_dump(m1, seq![key], dumped_at).1;
            let m2 = spec_load(target, seq![new_key, dump.value->Some_0], loaded_at, false).0;
            &&& dump.value is Some
            &&& later < loaded_at + left * 1000000 ==> spec_get(m2, seq![new_key], later).1 == bulk_view(value)
            &&& later >= loaded_at + left * 1000000 ==> spec_get(m2, seq![new_key], later).1 == nil_view()
        }),
{
    law_set_px_expires(m, key, value, px, ms, set_at, dumped_at);
    let m1 = spec_set(m, set_px_args(key, value, px, ms), set_at, false).0;
    let k = lossy_key(key);
    assert(lookup(m1, k, dumped_at) is Some);
    let it = lookup(m1, k, dumped_at)->Some_0;
    assert(it.value == value && !it.is_json && it.expires_at == Some(set_at + ms * 1000000)) by {
        law_set_px_item(m, key, value, px, ms, set_at);
    }
    law_dump_then_load(m1, key, dumped_at, target, new_key, loaded_at);
    let left = (set_at + ms * 1000000 - dumped_at) / 1000000;
    assert(ttl_ms_left(it.expires_at, dumped_at) == Some(left as nat)) by {
        let d = set_at + ms * 1000000 - dumped_at;
        assert(d / 1000000 <= ms) by (nonlinear_arith)
            requires
                0 < d <= ms * 1000000,
        ;
    }
}

/// What `SET key value PX ms` stores under the key.
proof fn law_set_px_item(m: StoreMap, key: WireValueView, value: WireValueView, px: Seq<char>, ms: nat, now: int)
    requires
        is_ascii_chars(px),
        ascii_upper(px) == "PX"@,
        ms * 1000000 < TTL_LIMIT_NS,
    ensures
        spec_set(m, set_px_args(key, value, px, ms), now, false).0 == purged(m, lossy_key(key), now).insert(
            lossy_key(key),
            ItemView { value, expires_at: Some(now + ms * 1000000), is_json: false },
        ),
{
    reveal_strlit("PX");
    reveal_strlit("EX");
    reveal_with_fuel(crate::ttl::pow10, 7);
    law_ttl_whole_numbers(ms, MILLIS_SCALE as nat);
    let ttl: u128 = (ms * 1000000) as u128;
    let a = set_px_args(key, value, px, ms);
    assert(option_name(a[2]) == "PX"@);
    assert(a[2] == WireValueView::Str(px) && a[3] == WireValueView::Str(nat_text(ms)));
    assert(lossy_key(a[3]) == nat_text(ms));
    assert(option_name(a[2]) != "EX"@) by {
        assert("PX"@[0] != "EX"@[0]);
    }
    let o = crate::commands::no_set_options();
    let o2 = SetOptions { ttl: Some(ttl as nat), ..o };
    assert(set_scan(a, 4, o2, false) == SetScan::Done(o2));
    assert(set_scan(a, 2, o, false) == SetScan::Done(o2));
}

/// A word of capital letters names the option it spells.
pub proof fn lemma_capital_option(w: Seq<char>)
    requires
        forall|i: int| 0 <= i < w.len() ==> 'A' <= #[trigger] w[i] <= 'Z',
    ensures
        option_name(WireValueView::Str(w)) == w,
{
    assert(is_ascii_chars(w));
    assert(ascii_upper(w) =~= w);
    assert(upper_case(w) == w);
}

proof fn lemma_nx_xx_words()
    ensures
        option_name(WireValueView::Str("NX"@)) == "NX"@,
        option_name(WireValueView::Str("XX"@)) == "XX"@,
        "NX"@ != "XX"@,
{
    reveal_strlit("NX");
    reveal_strlit("XX");
    lemma_capital_option("NX"@);
    lemma_capital_option("XX"@);
    assert("NX"@[0] != "XX"@[0]);
}

/// `SET key value NX` writes whenever the key holds no live entry (none at
/// all, or one whose time has passed): it answers `OK`, and the key then
/// holds the value, with no expiry.
pub proof fn law_set_nx_writes_absent_key(m: StoreMap, key: WireValueView, value: WireValueView, now: int)
    requires
        lookup(m, lossy_key(key), now) is None,
    ensures
        spec_set(m, seq![key, value, WireValueView::Str("NX"@)], now, false) == (
            purged(m, lossy_key(key), now).insert(
                lossy_key(key),
                ItemView { value, expires_at: None, is_json: false },
            ),
            simple_view("OK"@),
        ),
{
    lemma_nx_xx_words();
    let a = seq![key, value, WireValueView::Str("NX"@)];
    let o = crate::commands::no_set_options();
    let o2 = SetOptions { nx: true, ..o };
    assert(set_scan(a, 3, o2, false) == SetScan::Done(o2));
    assert(set_scan(a, 2, o, false) == SetScan::Done(o2));
}

/// In particular, once the entry under a key has expired, `SET key value
/// NX` writes the new value.
pub proof fn law_set_nx_after_expiry(m: StoreMap, key: WireValueView, value: WireValueView, now: int)
    requires
        m.contains_key(lossy_key(key)),
        m[lossy_key(key)].expires_at matches Some(e) && e <= now,
    ensures
        spec_set(m, seq![key, value, WireValueView::Str("NX"@)], now, false) == (
            m.remove(lossy_key(key)).insert(
                lossy_key(key),
                ItemView { value, expires_at: None, is_json: false },
            ),
            simple_view("OK"@),
        ),
{
    law_set_nx_writes_absent_key(m, key, value, now);
}

/// `SET key value NX` never touches a live key: it answers nil and the
/// store is as it was.
pub proof fn law_set_nx_keeps_live_key(m: StoreMap, key: WireValueView, value: WireValueView, now: int)
    requires
        lookup(m, lossy_key(key), now) is Some,
    ensures
        spec_set(m, seq![key, value, WireValueView::Str("NX"@)], now, false) == (m, nil_view()),
{
    lemma_nx_xx_words();
    let a = seq![key, value, WireValueView::Str("NX"@)];
    let o = crate::commands::no_set_options();
    let o2 = SetOptions { nx: true, ..o };
    assert(set_scan(a, 3, o2, false) == SetScan::Done(o2));
    assert(set_scan(a, 2, o, false) == SetScan::Done(o2));
}

/// `LOAD key payload XX` onto a key with a live entry replaces that entry
/// with the one the payload stands for, and answers `OK`.
pub proof fn law_load_xx_replaces_live_key(m: StoreMap, key: WireValueView, payload: WireValueView, now: int, it: ItemView)
    requires
        lookup(m, lossy_key(key), now) is Some,
        spec_decode_dump(payload, now) == Ok::<ItemView, DumpError>(it),
    ensures
        spec_load(m, seq![key, payload, WireValueView::Str("XX"@)], now, false) == (
            m.insert(lossy_key(key), it),
            simple_view("OK"@),
        ),
{
    lemma_nx_xx_words();
    let a = seq![key, payload, WireValueView::Str("XX"@)];
    let u = "ERR unsupported LOAD option "@;
    assert(crate::commands::flag_scan(a, 3, false, true, u) == Ok::<(bool, bool), ResponseView>((false, true)));
    assert(crate::commands::flag_scan(a, 2, false, false, u) == Ok::<(bool, bool), ResponseView>((false, true)));
}

/// `LOAD key payload XX` of what `DUMP` wrote, onto a key with a live
/// entry, answers `OK` and restores the dumped value and kind.
pub proof fn law_load_xx_restores_dump(m: StoreMap, key: WireValueView, item: ItemView, dumped_at: int, now: int)
    requires
        lookup(m, lossy_key(key), now) is Some,
    ensures
        ({
            let r = spec_load(
                m,
                seq![key, WireValueView::Bytes(spec_encode_dump(item, dumped_at)), WireValueView::Str("XX"@)],
                now,
                false,
            );
            &&& r.1 == simple_view("OK"@)
            &&& r.0.contains_key(lossy_key(key))
            &&& r.0[lossy_key(key)].value == item.value
            &&& r.0[lossy_key(key)].is_json == item.is_json
        }),
{
    law_dump_load_roundtrip(item, dumped_at, now);
    let it = ItemView {
        value: item.value,
        is_json: item.is_json,
        expires_at: match ttl_ms_left(item.expires_at, dumped_at) {
            Some(ms) => Some(now + ms * 1000000),
            None => None,
        },
    };
    law_load_xx_replaces_live_key(m, key, WireValueView::Bytes(spec_encode_dump(item, dumped_at)), now, it);
}

/// `LOAD key payload XX` onto a key without a live entry answers nil and
/// writes nothing.
pub proof fn law_load_xx_refuses_absent_key(m: StoreMap, key: WireValueView, payload: WireValueView, now: int)
    requires
        lookup(m, lossy_key(key), now) is None,
    ensures
        spec_load(m, seq![key, payload, WireValueView::Str("XX"@)], now, false) == (
            purged(m, lossy_key(key), now),
            nil_view(),
        ),
{
    lemma_nx_xx_words();
    let a = seq![key, payload, WireValueView::Str("XX"@)];
    let u = "ERR unsupported LOAD option "@;
    assert(crate::commands::flag_scan(a, 3, false, true, u) == Ok::<(bool, bool), ResponseView>((false, true)));
    assert(crate::commands::flag_scan(a, 2, false, false, u) == Ok::<(bool, bool), ResponseView>((false, true)));
}

/// `LOAD key payload NX` never touches a live key: it answers nil and the
/// store is as it was.
pub proof fn law_load_nx_keeps_live_key(m: StoreMap, key: WireValueView, payload: WireValueView, now: int)
    requires
        lookup(m, lossy_key(key), now) is Some,
    ensures
        spec_load(m, seq![key, payload, WireValueView::Str("NX"@)], now, false) == (m, nil_view()),
{
    lemma_nx_xx_words();
    let a = seq![key, payload, WireValueView::Str("NX"@)];
    let u = "ERR unsupported LOAD option "@;
    assert(crate::commands::flag_scan(a, 3, true, false, u) == Ok::<(bool, bool), ResponseView>((true, false)));
    assert(crate::commands::flag_scan(a, 2, false, false, u) == Ok::<(bool, bool), ResponseView>((true, false)));
}

/// `JSON.SET key $ doc NX` never touches a live key: it answers nil and
/// the store is as it was.
pub proof fn law_json_set_nx_keeps_live_key(
    m: StoreMap,
    key: WireValueView,
    path: WireValueView,
    doc: WireValueView,
    now: int,
)
    requires
        lookup(m, lossy_key(key), now) is Some,
        is_root_path(lossy_key(path)),
    ensures
        spec_json_set(m, seq![key, path, doc, WireValueView::Str("NX"@)], now, false) == (m, nil_view()),
{
    lemma_nx_xx_words();
    let a = seq![key, path, doc, WireValueView::Str("NX"@)];
    let u = "ERR unsupported JSON.SET option "@;
    assert(crate::commands::flag_scan(a, 4, true, false, u) == Ok::<(bool, bool), ResponseView>((true, false)));
    assert(crate::commands::flag_scan(a, 3, false, false, u) == Ok::<(bool, bool), ResponseView>((true, false)));
}

/// `JSON.SET key $ doc NX` onto a key without a live entry stores the
/// document in compact form and answers `OK`.
pub proof fn law_json_set_nx_writes_absent_key(
    m: StoreMap,
    key: WireValueView,
    path: WireValueView,
    doc: WireValueView,
    now: int,
)
    requires
        lookup(m, lossy_key(key), now) is None,
        is_root_path(lossy_key(path)),
        json_compact(json_text_of(doc)) is Some,
    ensures
        spec_json_set(m, seq![key, path, doc, WireValueView::Str("NX"@)], now, false) == (
            purged(m, lossy_key(key), now).insert(
                lossy_key(key),
                ItemView {
                    value: WireValueView::Json(json_compact(json_text_of(doc))->Some_0),
                    expires_at: None,
                    is_json: true,
                },
            ),
            simple_view("OK"@),
        ),
{
    lemma_nx_xx_words();
    let a = seq![key, path, doc, WireValueView::Str("NX"@)];
    let u = "ERR unsupported JSON.SET option "@;
    assert(crate::commands::flag_scan(a, 4, true, false, u) == Ok::<(bool, bool), ResponseView>((true, false)));
    assert(crate::commands::flag_scan(a, 3, false, false, u) == Ok::<(bool, bool), ResponseView>((true, false)));
}

/// The request the command-line client builds for `set key value --px ms`
/// makes the server keep the key for `ms` milliseconds: `SET` answers `OK`,
/// and `GET key` reads the value back until `ms` milliseconds have passed
/// and reads nothing from then on.
pub proof fn law_client_set_px_expires(
    m: StoreMap,
    key: String,
    value: String,
    t: String,
    ms: nat,
    now: int,
    later: int,
)
    requires
        t@ == nat_text(ms),
        ms * 1000000 < TTL_LIMIT_NS,
    ensures
        ({
            let parts = spec_command_parts(
                ClientCommand::SetKey { key, value, ex: None, px: Some(t), nx: false, xx: false, get: false },
            )->Ok_0;
            let m2 = spec_set(m, parts.drop_first(), now, false);
            &&& parts[0] == WireValueView::Str("SET"@)
            &&& m2.1 == simple_view("OK"@)
            &&& later < now + ms * 1000000 ==> spec_get(m2.0, seq![WireValueView::Str(key@)], later).1
                == bulk_view(WireValueView::Str(value@))
            &&& later >= now + ms * 1000000 ==> spec_get(m2.0, seq![WireValueView::Str(key@)], later).1
                == nil_view()
        }),
{
    let parts = spec_command_parts(
        ClientCommand::SetKey { key, value, ex: None, px: Some(t), nx: false, xx: false, get: false },
    )->Ok_0;
    reveal_strlit("PX");
    lemma_capital_option("PX"@);
    assert(ascii_upper("PX"@) =~= "PX"@);
    assert(parts.drop_first() =~= set_px_args(
        WireValueView::Str(key@),
        WireValueView::Str(value@),
        "PX"@,
        ms,
    ));
    law_set_px_expires(
        m,
        WireValueView::Str(key@),
        WireValueView::Str(value@),
        "PX"@,
        ms,
        now,
        later,
    );
}

/// `SET key value XX` writes only over a live entry: onto a live key it
/// stores the value (with no expiry) and answers `OK`.
pub proof fn law_set_xx_writes_live_key(m: StoreMap, key: WireValueView, value: WireValueView, now: int)
    requires
        lookup(m, lossy_key(key), now) is Some,
    ensures
        spec_set(m, seq![key, value, WireValueView::Str("XX"@)], now, false) == (
            m.insert(lossy_key(key), ItemView { value, expires_at: None, is_json: false }),
            simple_view("OK"@),
        ),
{
    lemma_nx_xx_words();
    let a = seq![key, value, WireValueView::Str("XX"@)];
    let o = crate::commands::no_set_options();
    let o2 = SetOptions { xx: true, ..o };
    assert(set_scan(a, 3, o2, false) == SetScan::Done(o2));
    assert(set_scan(a, 2, o, false) == SetScan::Done(o2));
}

/// `SET key value XX` onto a key without a live entry answers nil and
/// writes nothing.
pub proof fn law_set_xx_refuses_absent_key(m: StoreMap, key: WireValueView, value: WireValueView, now: int)
    requires
        lookup(m, lossy_key(key), now) is None,
    ensures
        spec_set(m, seq![key, value, WireValueView::Str("XX"@)], now, false) == (
            purged(m, lossy_key(key), now),
            nil_view(),
        ),
{
    lemma_nx_xx_words();
    let a = seq![key, value, WireValueView::Str("XX"@)];
    let o = crate::commands::no_set_options();
    let o2 = SetOptions { xx: true, ..o };
    assert(set_scan(a, 3, o2, false) == SetScan::Done(o2));
    assert(set_scan(a, 2, o, false) == SetScan::Done(o2));
}

/// `JSON.SET key $ doc XX` onto a live key replaces its entry with the
/// compact document and answers `OK`.
pub proof fn law_json_set_xx_writes_live_key(
    m: StoreMap,
    key: WireValueView,
    path: WireValueView,
    doc: WireValueView,
    now: int,
)
    requires
        lookup(m, lossy_key(key), now) is Some,
        is_root_path(lossy_key(path)),
        json_compact(json_text_of(doc)) is Some,
    ensures
        spec_json_set(m, seq![key, path, doc, WireValueView::Str("XX"@)], now, false) == (
            m.insert(
                lossy_key(key),
                ItemView {
                    value: WireValueView::Json(json_compact(json_text_of(doc))->Some_0),
                    expires_at: None,
                    is_json: true,
                },
            ),
            simple_view("OK"@),
        ),
{
    lemma_nx_xx_words();
    let a = seq![key, path, doc, WireValueView::Str("XX"@)];
    let u = "ERR unsupported JSON.SET option "@;
    assert(crate::commands::flag_scan(a, 4, false, true, u) == Ok::<(bool, bool), ResponseView>((false, true)));
    assert(crate::commands::flag_scan(a, 3, false, false, u) == Ok::<(bool, bool), ResponseView>((false, true)));
}

/// `JSON.SET key $ doc XX` onto a key without a live entry answers nil and
/// writes nothing.
pub proof fn law_json_set_xx_refuses_absent_key(
    m: StoreMap,
    key: WireValueView,
    path: WireValueView,
    doc: WireValueView,
    now: int,
)
    requires
        lookup(m, lossy_key(key), now) is None,
        is_root_path(lossy_key(path)),
    ensures
        spec_json_set(m, seq![key, path, doc, WireValueView::Str("XX"@)], now, false) == (
            purged(m, lossy_key(key), now),
            nil_view(),
        ),
{
    lemma_nx_xx_words();
    let a = seq![key, path, doc, WireValueView::Str("XX"@)];
    let u = "ERR unsupported JSON.SET option "@;
    assert(crate::commands::flag_scan(a, 4, false, true, u) == Ok::<(bool, bool), ResponseView>((false, true)));
    assert(crate::commands::flag_scan(a, 3, false, false, u) == Ok::<(bool, bool), ResponseView>((false, true)));
}

/// A key set with `EX s` expires `s` seconds later: `SET` answers `OK` and
/// stores the value with its expiry `s` seconds from now.
pub proof fn law_set_ex_item(m: StoreMap, key: WireValueView, value: WireValueView, secs: nat, now: int)
    requires
        secs * 1000000000 < TTL_LIMIT_NS,
    ensures
        spec_set(m, seq![key, value, WireValueView::Str("EX"@), WireValueView::Str(nat_text(secs))], now, false)
            == (
            purged(m, lossy_key(key), now).insert(
                lossy_key(key),
                ItemView { value, expires_at: Some(now + secs * 1000000000), is_json: false },
            ),
            simple_view("OK"@),
        ),
{
    reveal_strlit("EX");
    lemma_capital_option("EX"@);
    reveal_with_fuel(crate::ttl::pow10, 10);
    law_ttl_whole_numbers(secs, SECONDS_SCALE as nat);
    let a = seq![key, value, WireValueView::Str("EX"@), WireValueView::Str(nat_text(secs))];
    assert(lossy_key(a[3]) == nat_text(secs));
    let o = crate::commands::no_set_options();
    let o2 = SetOptions { ttl: Some(secs * 1000000000), ..o };
    assert(set_scan(a, 4, o2, false) == SetScan::Done(o2));
    assert(set_scan(a, 2, o, false) == SetScan::Done(o2));
}

/// `SET key value GET` answers what the key held before (nil where it held
/// no live entry) and stores the new value.
pub proof fn law_set_get_returns_old(m: StoreMap, key: WireValueView, value: WireValueView, now: int)
    ensures
        ({
            let r = spec_set(m, seq![key, value, WireValueView::Str("GET"@)], now, false);
            let k = lossy_key(key);
            &&& r.0 == purged(m, k, now).insert(k, ItemView { value, expires_at: None, is_json: false })
            &&& r.1 == match lookup(m, k, now) {
                Some(it) => bulk_view(it.value),
                None => nil_view(),
            }
        }),
{
    reveal_strlit("GET");
    reveal_strlit("EX");
    reveal_strlit("PX");
    reveal_strlit("NX");
    reveal_strlit("XX");
    lemma_capital_option("GET"@);
    assert("GET"@ != "NX"@ && "GET"@ != "XX"@) by {
        assert("GET"@.len() != "NX"@.len());
    }
    let a = seq![key, value, WireValueView::Str("GET"@)];
    let o = crate::commands::no_set_options();
    let o2 = SetOptions { get: true, ..o };
    assert(set_scan(a, 3, o2, false) == SetScan::Done(o2));
    assert(set_scan(a, 2, o, false) == SetScan::Done(o2));
}

} // verus!
