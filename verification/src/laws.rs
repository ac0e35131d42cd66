//! Properties of the command layer that span several requests.

use vstd::prelude::*;
use vstd::string::StringSliceAdditionalSpecFns;
use crate::command::{
    bulk_arg, command_spec, entry_expired, expiry_after, float_arg, score_from_text, zadd_all,
    zadd_pairs, zadd_spec, zcard_spec, zrange_spec, zrank_spec, zscore_spec, EntryModel,
    ReplyModel,
};
use crate::store::empty_keyspace;
use crate::text::{ascii_upper, parse_i64_spec};
use crate::types::{bulk_items, bulk_request, Resp};
use crate::value::{
    entry_lt, lemma_entry_order, member_index, float_eq, has_member, is_nan_bits, lemma_zset_add_keeps_others, lemma_zset_add_then_score,
    lemma_zset_add_wf, zset_add, zset_range, zset_score, zset_wf, ValueModel,
};

verus! {

broadcast use {
    vstd::string::is_ascii_spec_bytes,
    vstd::seq_lib::seq_to_set_is_finite,
    vstd::set::axiom_set_insert_len,
};

/// The command names are different byte strings.
proof fn lemma_command_names()
    ensures
        "PING".spec_bytes() == seq![80u8, 73u8, 78u8, 71u8],
        "ECHO".spec_bytes() == seq![69u8, 67u8, 72u8, 79u8],
        "SET".spec_bytes() == seq![83u8, 69u8, 84u8],
        "GET".spec_bytes() == seq![71u8, 69u8, 84u8],
        "ZADD".spec_bytes() == seq![90u8, 65u8, 68u8, 68u8],
        "ZRANK".spec_bytes() == seq![90u8, 82u8, 65u8, 78u8, 75u8],
        "ZRANGE".spec_bytes() == seq![90u8, 82u8, 65u8, 78u8, 71u8, 69u8],
        "ZCARD".spec_bytes() == seq![90u8, 67u8, 65u8, 82u8, 68u8],
        "ZSCORE".spec_bytes() == seq![90u8, 83u8, 67u8, 79u8, 82u8, 69u8],
        "PX".spec_bytes() == seq![80u8, 88u8],
{
    reveal_strlit("PING");
    reveal_strlit("ECHO");
    reveal_strlit("SET");
    reveal_strlit("GET");
    reveal_strlit("ZADD");
    reveal_strlit("ZRANK");
    reveal_strlit("ZRANGE");
    reveal_strlit("ZCARD");
    reveal_strlit("ZSCORE");
    reveal_strlit("PX");
    assert(vstd::string::is_ascii("PING"));
    assert("PING".spec_bytes() =~= seq![80u8, 73u8, 78u8, 71u8]);
    assert(vstd::string::is_ascii("ECHO"));
    assert("ECHO".spec_bytes() =~= seq![69u8, 67u8, 72u8, 79u8]);
    assert(vstd::string::is_ascii("SET"));
    assert("SET".spec_bytes() =~= seq![83u8, 69u8, 84u8]);
    assert(vstd::string::is_ascii("GET"));
    assert("GET".spec_bytes() =~= seq![71u8, 69u8, 84u8]);
    assert(vstd::string::is_ascii("ZADD"));
    assert("ZADD".spec_bytes() =~= seq![90u8, 65u8, 68u8, 68u8]);
    assert(vstd::string::is_ascii("ZRANK"));
    assert("ZRANK".spec_bytes() =~= seq![90u8, 82u8, 65u8, 78u8, 75u8]);
    assert(vstd::string::is_ascii("ZRANGE"));
    assert("ZRANGE".spec_bytes() =~= seq![90u8, 82u8, 65u8, 78u8, 71u8, 69u8]);
    assert(vstd::string::is_ascii("ZCARD"));
    assert("ZCARD".spec_bytes() =~= seq![90u8, 67u8, 65u8, 82u8, 68u8]);
    assert(vstd::string::is_ascii("ZSCORE"));
    assert("ZSCORE".spec_bytes() =~= seq![90u8, 83u8, 67u8, 79u8, 82u8, 69u8]);
    assert(vstd::string::is_ascii("PX"));
    assert("PX".spec_bytes() =~= seq![80u8, 88u8]);
}

/// After `SET key value`, `GET key` answers `value` (however either command
/// name is cased), and leaves the keyspace as SET made it.
pub proof fn lemma_set_then_get(
    set_name: Seq<u8>,
    get_name: Seq<u8>,
    key: Seq<u8>,
    value: Seq<u8>,
    store: Map<Seq<u8>, EntryModel>,
    t1: u128,
    t2: u128,
    floats: Seq<Option<u64>>,
)
    requires
        ascii_upper(set_name) == "SET".spec_bytes(),
        ascii_upper(get_name) == "GET".spec_bytes(),
    ensures
        ({
            let after_set = command_spec(bulk_request(seq![set_name, key, value]), store, t1, floats).1;
            let (reply, after_get) = command_spec(bulk_request(seq![get_name, key]), after_set, t2, floats);
            &&& reply == ReplyModel::Value(Resp::Bulk(value))
            &&& after_get == after_set
        }),
{
    lemma_command_names();
    let set_req = seq![set_name, key, value];
    let get_req = seq![get_name, key];
    assert(bulk_request(set_req)->Array_0[0] == Resp::Bulk(set_name));
    assert(bulk_request(get_req)->Array_0[0] == Resp::Bulk(get_name));
    assert(bulk_request(set_req)->Array_0[1] == Resp::Bulk(key));
    assert(bulk_request(set_req)->Array_0[2] == Resp::Bulk(value));
    assert(bulk_request(get_req)->Array_0[1] == Resp::Bulk(key));
}

/// After `SET key value PX ms` at time `t1`, `GET key` at `t2` answers
/// `value` before the expiry time and nothing from then on, when it also
/// removes the key.
pub proof fn lemma_set_px_then_get(
    set_name: Seq<u8>,
    px_name: Seq<u8>,
    get_name: Seq<u8>,
    key: Seq<u8>,
    value: Seq<u8>,
    ms_text: Seq<u8>,
    store: Map<Seq<u8>, EntryModel>,
    t1: u128,
    t2: u128,
    floats: Seq<Option<u64>>,
)
    requires
        ascii_upper(set_name) == "SET".spec_bytes(),
        ascii_upper(px_name) == "PX".spec_bytes(),
        ascii_upper(get_name) == "GET".spec_bytes(),
        parse_i64_spec(ms_text) matches Some(ms) && ms > 0,
    ensures
        ({
            let ms = parse_i64_spec(ms_text).unwrap();
            let expiry = expiry_after(t1, ms as int);
            let after_set = command_spec(
                bulk_request(seq![set_name, key, value, px_name, ms_text]),
                store,
                t1,
                floats,
            ).1;
            let (reply, after_get) = command_spec(bulk_request(seq![get_name, key]), after_set, t2, floats);
            &&& t2 < expiry ==> reply == ReplyModel::Value(Resp::Bulk(value)) && after_get
                == after_set
            &&& t2 >= expiry ==> reply == ReplyModel::Value(Resp::NullBulk) && after_get
                == store.remove(key)
        }),
{
    lemma_command_names();
    let set_req = seq![set_name, key, value, px_name, ms_text];
    let get_req = seq![get_name, key];
    let sp = bulk_request(set_req)->Array_0;
    let gp = bulk_request(get_req)->Array_0;
    assert(sp[0] == Resp::Bulk(set_name));
    assert(sp[1] == Resp::Bulk(key));
    assert(sp[2] == Resp::Bulk(value));
    assert(sp[3] == Resp::Bulk(px_name));
    assert(sp[4] == Resp::Bulk(ms_text));
    assert(gp[0] == Resp::Bulk(get_name));
    assert(gp[1] == Resp::Bulk(key));
    let after_set = command_spec(bulk_request(set_req), store, t1, floats).1;
    assert(after_set.remove(key) =~= store.remove(key));
}

/// A request answered with an error leaves the keyspace as it was.
pub proof fn lemma_refused_request_changes_nothing(
    req: Resp,
    store: Map<Seq<u8>, EntryModel>,
    now: u128,
    floats: Seq<Option<u64>>,
)
    requires
        command_spec(req, store, now, floats).0 matches ReplyModel::Value(Resp::ErrorMsg(_)),
    ensures
        command_spec(req, store, now, floats).1 == store,
{
}

/// Only SET, ZADD and GET change the keyspace, and GET only by removing
/// an expired key.
pub proof fn lemma_only_writes_change_keyspace(
    req: Resp,
    store: Map<Seq<u8>, EntryModel>,
    now: u128,
    floats: Seq<Option<u64>>,
)
    ensures
        command_spec(req, store, now, floats).1 != store ==> ({
            let parts = req->Array_0;
            let cmd = ascii_upper(bulk_arg(parts, 0).unwrap());
            &&& req is Array
            &&& bulk_arg(parts, 0) is Some
            &&& {
                ||| cmd == "SET".spec_bytes()
                ||| cmd == "ZADD".spec_bytes()
                ||| (cmd == "GET".spec_bytes() && (bulk_arg(parts, 1) matches Some(k)
                    && store.contains_key(k) && entry_expired(store[k], now) && command_spec(
                    req,
                    store,
                    now,
                    floats,
                ).1 == store.remove(k)))
            }
        }),
{
}

proof fn lemma_dispatch_zadd(
    parts: Seq<Resp>,
    store: Map<Seq<u8>, EntryModel>,
    now: u128,
    floats: Seq<Option<u64>>,
)
    requires
        parts.len() > 0,
        parts[0] matches Resp::Bulk(name) && ascii_upper(name) == "ZADD".spec_bytes(),
    ensures
        command_spec(Resp::Array(parts), store, now, floats) == (
            ReplyModel::Value(zadd_spec(parts, store, floats).0),
            zadd_spec(parts, store, floats).1,
        ),
{
    lemma_command_names();
}

proof fn lemma_dispatch_zscore(
    parts: Seq<Resp>,
    store: Map<Seq<u8>, EntryModel>,
    now: u128,
    floats: Seq<Option<u64>>,
)
    requires
        parts.len() > 0,
        parts[0] matches Resp::Bulk(name) && ascii_upper(name) == "ZSCORE".spec_bytes(),
    ensures
        command_spec(Resp::Array(parts), store, now, floats) == (zscore_spec(parts, store), store),
{
    lemma_command_names();
}

/// The set that ZADD adds to: the one under the key, or an empty one.
pub open spec fn target_set(store: Map<Seq<u8>, EntryModel>, key: Seq<u8>) -> Seq<(u64, Seq<u8>)> {
    if store.contains_key(key) {
        store[key].data->ZSet_0
    } else {
        Seq::empty()
    }
}

proof fn lemma_zadd_one(
    zp: Seq<Resp>,
    store: Map<Seq<u8>, EntryModel>,
    floats: Seq<Option<u64>>,
    key: Seq<u8>,
    score_text: Seq<u8>,
    member: Seq<u8>,
    bits: u64,
)
    requires
        zp.len() == 4,
        zp[1] == Resp::Bulk(key),
        zp[2] == Resp::Bulk(score_text),
        zp[3] == Resp::Bulk(member),
        score_from_text(score_text, float_arg(floats, 2)) == Ok::<u64, Resp>(bits),
        store.contains_key(key) ==> store[key].data is ZSet,
    ensures
        zadd_spec(zp, store, floats) == (
            Resp::Int(if zset_add(target_set(store, key), member, bits).1 {
                1i64
            } else {
                0i64
            }),
            store.insert(
                key,
                EntryModel {
                    data: ValueModel::ZSet(zset_add(target_set(store, key), member, bits).0),
                    expires_at: if store.contains_key(key) {
                        store[key].expires_at
                    } else {
                        None
                    },
                },
            ),
        ),
{
    assert(zadd_pairs(zp, floats, 4) == Ok::<Seq<(u64, Seq<u8>)>, Resp>(Seq::empty()));
    assert(zadd_pairs(zp, floats, 2) == Ok::<Seq<(u64, Seq<u8>)>, Resp>(seq![(bits, member)])) by {
        assert(seq![(bits, member)] + Seq::<(u64, Seq<u8>)>::empty() =~= seq![(bits, member)]);
    }
    assert(seq![(bits, member)].drop_last() =~= Seq::<(u64, Seq<u8>)>::empty());
    let t = target_set(store, key);
    assert(zadd_all(t, Seq::empty()) == (t, 0int));
    let step = zset_add(t, member, bits);
    assert(zadd_all(t, seq![(bits, member)]) == (step.0, if step.1 {
        1int
    } else {
        0int
    }));
}

/// ZADD of one member `key score member` answers 1 when the member is new
/// (or the key missing) and 0 otherwise, and a following `ZSCORE key member`
/// answers a score `==` to the one added: the added score itself unless the
/// member already had one `==` to it.
pub proof fn lemma_zadd_then_zscore(
    zadd_name: Seq<u8>,
    zscore_name: Seq<u8>,
    key: Seq<u8>,
    score_text: Seq<u8>,
    member: Seq<u8>,
    store: Map<Seq<u8>, EntryModel>,
    t1: u128,
    t2: u128,
    floats: Seq<Option<u64>>,
    later_floats: Seq<Option<u64>>,
)
    requires
        ascii_upper(zadd_name) == "ZADD".spec_bytes(),
        ascii_upper(zscore_name) == "ZSCORE".spec_bytes(),
        score_from_text(score_text, float_arg(floats, 2)) is Ok,
        store.contains_key(key) ==> (store[key].data matches ValueModel::ZSet(s) && zset_wf(s)),
    ensures
        ({
            let bits = score_from_text(score_text, float_arg(floats, 2))->Ok_0;
            let (added, after_zadd) = command_spec(
                bulk_request(seq![zadd_name, key, score_text, member]),
                store,
                t1,
                floats,
            );
            let (reply, after_zscore) = command_spec(
                bulk_request(seq![zscore_name, key, member]),
                after_zadd,
                t2,
                later_floats,
            );
            let is_new = !has_member(target_set(store, key), member);
            &&& added == ReplyModel::Value(Resp::Int(if is_new {
                1i64
            } else {
                0i64
            }))
            &&& reply matches ReplyModel::Score(b) && float_eq(b, bits)
            &&& is_new ==> reply == ReplyModel::Score(bits)
            &&& after_zscore == after_zadd
        }),
{
    let zreq = seq![zadd_name, key, score_text, member];
    let sreq = seq![zscore_name, key, member];
    let zp = bulk_request(zreq)->Array_0;
    let sp = bulk_request(sreq)->Array_0;
    assert(zp[0] == Resp::Bulk(zadd_name));
    assert(zp[1] == Resp::Bulk(key));
    assert(zp[2] == Resp::Bulk(score_text));
    assert(zp[3] == Resp::Bulk(member));
    assert(sp[0] == Resp::Bulk(zscore_name));
    assert(sp[1] == Resp::Bulk(key));
    assert(sp[2] == Resp::Bulk(member));
    let bits = score_from_text(score_text, float_arg(floats, 2))->Ok_0;
    assert(!is_nan_bits(bits)) by {
        reveal_strlit("+inf");
        reveal_strlit("inf");
        reveal_strlit("-inf");
    }
    let s = target_set(store, key);
    assert(zset_wf(s));
    lemma_zadd_one(zp, store, floats, key, score_text, member, bits);
    lemma_dispatch_zadd(zp, store, t1, floats);
    let after_zadd = zadd_spec(zp, store, floats).1;
    lemma_dispatch_zscore(sp, after_zadd, t2, later_floats);
    lemma_zset_add_wf(s, member, bits);
    lemma_zset_add_then_score(s, member, bits);
    let s2 = zset_add(s, member, bits).0;
    assert(after_zadd[key].data == ValueModel::ZSet(s2));
    assert(zscore_spec(sp, after_zadd) == ReplyModel::Score(zset_score(s2, member).unwrap()));
}


// ---------------------------------------------------------------------------
// Runs of requests
// ---------------------------------------------------------------------------

/// The keyspace after running `reqs` in order from `store`, each request
/// with the time it runs at and the doubles read from its arguments.
pub open spec fn run(
    reqs: Seq<(Resp, u128, Seq<Option<u64>>)>,
    store: Map<Seq<u8>, EntryModel>,
) -> Map<Seq<u8>, EntryModel>
    decreases reqs.len(),
{
    if reqs.len() == 0 {
        store
    } else {
        let last = reqs.last();
        command_spec(last.0, run(reqs.drop_last(), store), last.1, last.2).1
    }
}

/// The request is a SET or a ZADD of `key`: one that puts an entry under
/// it.
pub open spec fn writes_key(req: Resp, key: Seq<u8>) -> bool {
    &&& req is Array
    &&& bulk_arg(req->Array_0, 1) == Some(key)
    &&& bulk_arg(req->Array_0, 0) matches Some(name) && (ascii_upper(name) == "SET".spec_bytes()
        || ascii_upper(name) == "ZADD".spec_bytes())
}

/// A request that does not write `key` puts nothing new under it: a missing
/// key stays missing, and an entry stays as it was, unless the request is a
/// GET at or after the entry's expiry time, which removes it.
pub proof fn lemma_key_kept(
    req: Resp,
    store: Map<Seq<u8>, EntryModel>,
    now: u128,
    floats: Seq<Option<u64>>,
    key: Seq<u8>,
)
    requires
        !writes_key(req, key),
    ensures
        ({
            let after = command_spec(req, store, now, floats).1;
            &&& after.contains_key(key) ==> store.contains_key(key) && after[key] == store[key]
            &&& store.contains_key(key) && !entry_expired(store[key], now) ==> after.contains_key(
                key,
            )
        }),
{
    lemma_command_names();
    lemma_only_writes_change_keyspace(req, store, now, floats);
}

/// Requests that do not write `key` put nothing new under it: a missing key
/// stays missing, and an entry that none of them runs at or after the
/// expiry time of stays as it was.
pub proof fn lemma_run_keeps_key(
    reqs: Seq<(Resp, u128, Seq<Option<u64>>)>,
    store: Map<Seq<u8>, EntryModel>,
    key: Seq<u8>,
)
    requires
        forall|i: int| 0 <= i < reqs.len() ==> !writes_key(#[trigger] reqs[i].0, key),
    ensures
        run(reqs, store).contains_key(key) ==> store.contains_key(key) && run(reqs, store)[key]
            == store[key],
        store.contains_key(key) && (forall|i: int|
            0 <= i < reqs.len() ==> !entry_expired(store[key], #[trigger] reqs[i].1))
            ==> run(reqs, store).contains_key(key),
    decreases reqs.len(),
{
    if reqs.len() > 0 {
        let d = reqs.drop_last();
        assert forall|i: int| 0 <= i < d.len() implies !writes_key(#[trigger] d[i].0, key) by {
            assert(d[i] == reqs[i]);
        }
        if store.contains_key(key) && (forall|i: int|
            0 <= i < reqs.len() ==> !entry_expired(store[key], #[trigger] reqs[i].1)) {
            assert forall|i: int| 0 <= i < d.len() implies !entry_expired(
                store[key],
                #[trigger] d[i].1,
            ) by {
                assert(d[i] == reqs[i]);
            }
            assert(!entry_expired(store[key], reqs[reqs.len() - 1].1));
        }
        lemma_run_keeps_key(d, store, key);
        let last = reqs.last();
        assert(!writes_key(reqs[reqs.len() - 1].0, key));
        lemma_key_kept(last.0, run(d, store), last.1, last.2, key);
    }
}

/// After `SET key value`, any requests that do not write `key` (reads of it
/// included), then `GET key` at any time: GET answers `value` and leaves the
/// keyspace as it found it.
pub proof fn lemma_set_others_then_get(
    set_name: Seq<u8>,
    get_name: Seq<u8>,
    key: Seq<u8>,
    value: Seq<u8>,
    store: Map<Seq<u8>, EntryModel>,
    t1: u128,
    floats: Seq<Option<u64>>,
    others: Seq<(Resp, u128, Seq<Option<u64>>)>,
    t2: u128,
    get_floats: Seq<Option<u64>>,
)
    requires
        ascii_upper(set_name) == "SET".spec_bytes(),
        ascii_upper(get_name) == "GET".spec_bytes(),
        forall|i: int| 0 <= i < others.len() ==> !writes_key(#[trigger] others[i].0, key),
    ensures
        ({
            let after_set = command_spec(bulk_request(seq![set_name, key, value]), store, t1, floats).1;
            let before_get = run(others, after_set);
            let (reply, after_get) = command_spec(
                bulk_request(seq![get_name, key]),
                before_get,
                t2,
                get_floats,
            );
            &&& reply == ReplyModel::Value(Resp::Bulk(value))
            &&& after_get == before_get
        }),
{
    lemma_command_names();
    let set_req = seq![set_name, key, value];
    let get_req = seq![get_name, key];
    assert(bulk_request(set_req)->Array_0[0] == Resp::Bulk(set_name));
    assert(bulk_request(set_req)->Array_0[1] == Resp::Bulk(key));
    assert(bulk_request(set_req)->Array_0[2] == Resp::Bulk(value));
    assert(bulk_request(get_req)->Array_0[0] == Resp::Bulk(get_name));
    assert(bulk_request(get_req)->Array_0[1] == Resp::Bulk(key));
    let after_set = command_spec(bulk_request(set_req), store, t1, floats).1;
    assert(after_set.contains_key(key));
    assert(after_set[key] == EntryModel { data: ValueModel::Str(value), expires_at: None });
    lemma_run_keeps_key(others, after_set, key);
}

/// After `SET key value PX ms` at time `t1`, any requests that do not write
/// `key` (reads of it included), then `GET key` at a time `t2` no earlier
/// than theirs: before the expiry time GET answers `value` and changes
/// nothing; from then on it answers nothing and leaves the key removed.
pub proof fn lemma_set_px_others_then_get(
    set_name: Seq<u8>,
    px_name: Seq<u8>,
    get_name: Seq<u8>,
    key: Seq<u8>,
    value: Seq<u8>,
    ms_text: Seq<u8>,
    store: Map<Seq<u8>, EntryModel>,
    t1: u128,
    floats: Seq<Option<u64>>,
    others: Seq<(Resp, u128, Seq<Option<u64>>)>,
    t2: u128,
    get_floats: Seq<Option<u64>>,
)
    requires
        ascii_upper(set_name) == "SET".spec_bytes(),
        ascii_upper(px_name) == "PX".spec_bytes(),
        ascii_upper(get_name) == "GET".spec_bytes(),
        parse_i64_spec(ms_text) matches Some(ms) && ms > 0,
        forall|i: int| 0 <= i < others.len() ==> !writes_key(#[trigger] others[i].0, key),
        forall|i: int| 0 <= i < others.len() ==> #[trigger] others[i].1 <= t2,
    ensures
        ({
            let ms = parse_i64_spec(ms_text).unwrap();
            let expiry = expiry_after(t1, ms as int);
            let after_set = command_spec(
                bulk_request(seq![set_name, key, value, px_name, ms_text]),
                store,
                t1,
                floats,
            ).1;
            let before_get = run(others, after_set);
            let (reply, after_get) = command_spec(
                bulk_request(seq![get_name, key]),
                before_get,
                t2,
                get_floats,
            );
            &&& t2 < expiry ==> reply == ReplyModel::Value(Resp::Bulk(value)) && after_get
                == before_get
            &&& t2 >= expiry ==> reply == ReplyModel::Value(Resp::NullBulk) && after_get
                == before_get.remove(key)
        }),
{
    lemma_command_names();
    let set_req = seq![set_name, key, value, px_name, ms_text];
    let get_req = seq![get_name, key];
    let sp = bulk_request(set_req)->Array_0;
    let gp = bulk_request(get_req)->Array_0;
    assert(sp[0] == Resp::Bulk(set_name));
    assert(sp[1] == Resp::Bulk(key));
    assert(sp[2] == Resp::Bulk(value));
    assert(sp[3] == Resp::Bulk(px_name));
    assert(sp[4] == Resp::Bulk(ms_text));
    assert(gp[0] == Resp::Bulk(get_name));
    assert(gp[1] == Resp::Bulk(key));
    let ms = parse_i64_spec(ms_text).unwrap();
    let after_set = command_spec(bulk_request(set_req), store, t1, floats).1;
    assert(after_set.contains_key(key));
    assert(after_set[key] == EntryModel {
        data: ValueModel::Str(value),
        expires_at: Some(expiry_after(t1, ms as int)),
    });
    lemma_run_keeps_key(others, after_set, key);
    let before_get = run(others, after_set);
    if t2 < expiry_after(t1, ms as int) {
        assert forall|i: int| 0 <= i < others.len() implies !entry_expired(
            after_set[key],
            #[trigger] others[i].1,
        ) by {
            assert(others[i].1 <= t2);
        }
    }
    if !before_get.contains_key(key) {
        assert(before_get.remove(key) =~= before_get);
    }
}

// ---------------------------------------------------------------------------
// The keyspace invariant
// ---------------------------------------------------------------------------

/// Every sorted set in the keyspace is well formed, holds at least one
/// member and has no expiry.
pub open spec fn keyspace_wf(store: Map<Seq<u8>, EntryModel>) -> bool {
    forall|k: Seq<u8>| #[trigger]
        store.contains_key(k) ==> (store[k].data matches ValueModel::ZSet(s) ==> zset_wf(s)
            && s.len() >= 1 && store[k].expires_at is None)
}

/// The members that score-member pairs name, in order.
pub open spec fn pair_member_seq(pairs: Seq<(u64, Seq<u8>)>) -> Seq<Seq<u8>> {
    pairs.map_values(|p: (u64, Seq<u8>)| p.1)
}

/// The distinct members that score-member pairs name.
pub open spec fn pair_members(pairs: Seq<(u64, Seq<u8>)>) -> Set<Seq<u8>> {
    pair_member_seq(pairs).to_set()
}

/// Adding pairs one after another to a well-formed set: the set stays well
/// formed, its members are the old ones and those the pairs name, it grows
/// by the number of new members, and from an empty set that number is the
/// number of distinct members named.
proof fn lemma_zadd_all(s: Seq<(u64, Seq<u8>)>, pairs: Seq<(u64, Seq<u8>)>)
    requires
        zset_wf(s),
    ensures
        zset_wf(zadd_all(s, pairs).0),
        zadd_all(s, pairs).0.len() == s.len() + zadd_all(s, pairs).1,
        forall|m: Seq<u8>|
            #[trigger] has_member(zadd_all(s, pairs).0, m) <==> (has_member(s, m) || pair_members(
                pairs,
            ).contains(m)),
        pairs.len() > 0 ==> zadd_all(s, pairs).0.len() >= 1,
        s.len() == 0 ==> zadd_all(s, pairs).1 == pair_members(pairs).len(),
    decreases pairs.len(),
{
    if pairs.len() == 0 {
        assert(pair_members(pairs) =~= Set::<Seq<u8>>::empty());
    } else {
        let d = pairs.drop_last();
        let (b, m) = pairs.last();
        lemma_zadd_all(s, d);
        let before = zadd_all(s, d);
        lemma_zset_add_wf(before.0, m, b);
        let after = zset_add(before.0, m, b).0;
        assert(pair_member_seq(pairs) =~= pair_member_seq(d).push(m));
        pair_member_seq(d).lemma_push_to_set_commute(m);
        assert(pair_members(pairs) =~= pair_members(d).insert(m));
        assert forall|x: Seq<u8>| #[trigger] has_member(after, x) <==> (has_member(before.0, x)
            || x == m) by {
            if x != m {
                lemma_zset_add_keeps_others(before.0, m, b, x);
            }
        }
        if s.len() == 0 {
            assert(!has_member(s, m));
        }
    }
}

/// Every request keeps the keyspace invariant.
pub proof fn lemma_keyspace_wf_kept(
    req: Resp,
    store: Map<Seq<u8>, EntryModel>,
    now: u128,
    floats: Seq<Option<u64>>,
)
    requires
        keyspace_wf(store),
    ensures
        keyspace_wf(command_spec(req, store, now, floats).1),
{
    let after = command_spec(req, store, now, floats).1;
    lemma_only_writes_change_keyspace(req, store, now, floats);
    if after != store {
        lemma_command_names();
        let parts = req->Array_0;
        let cmd = ascii_upper(bulk_arg(parts, 0).unwrap());
        if cmd == "ZADD".spec_bytes() {
            lemma_dispatch_zadd(parts, store, now, floats);
            let key = bulk_arg(parts, 1).unwrap();
            let pairs = zadd_pairs(parts, floats, 2)->Ok_0;
            let t = target_set(store, key);
            lemma_zadd_all(t, pairs);
            assert(pairs.len() > 0);
        }
        assert forall|k: Seq<u8>| #[trigger] after.contains_key(k) implies (
        after[k].data matches ValueModel::ZSet(s) ==> zset_wf(s) && s.len() >= 1
            && after[k].expires_at is None) by {}
    }
}

/// Running requests from a keyspace that keeps the invariant keeps it.
pub proof fn lemma_run_keeps_keyspace_wf(
    reqs: Seq<(Resp, u128, Seq<Option<u64>>)>,
    store: Map<Seq<u8>, EntryModel>,
)
    requires
        keyspace_wf(store),
    ensures
        keyspace_wf(run(reqs, store)),
    decreases reqs.len(),
{
    if reqs.len() > 0 {
        lemma_run_keeps_keyspace_wf(reqs.drop_last(), store);
        let last = reqs.last();
        lemma_keyspace_wf_kept(last.0, run(reqs.drop_last(), store), last.1, last.2);
    }
}

/// From an empty keyspace, any run of requests leaves every sorted set well
/// formed, with at least one member and no expiry.
pub proof fn lemma_keyspace_invariant(reqs: Seq<(Resp, u128, Seq<Option<u64>>)>)
    ensures
        keyspace_wf(run(reqs, empty_keyspace())),
{
    lemma_run_keeps_keyspace_wf(reqs, empty_keyspace());
}

/// ZADD on a missing key, any requests that do not write `key` (reads of it
/// included), then `ZCARD key`:
/// when ZADD answers a number, it and ZCARD both answer the number of
/// distinct members the ZADD named, and ZCARD changes nothing.
/// ZADD on a missing key that answers a number: the pairs were read, the
/// key now holds the set they build, without expiry, and the answer is its
/// size, the number of distinct members named.
proof fn lemma_zadd_new(
    parts: Seq<Resp>,
    store: Map<Seq<u8>, EntryModel>,
    now: u128,
    floats: Seq<Option<u64>>,
    key: Seq<u8>,
)
    requires
        parts.len() > 0,
        parts[0] matches Resp::Bulk(name) && ascii_upper(name) == "ZADD".spec_bytes(),
        bulk_arg(parts, 1) == Some(key),
        !store.contains_key(key),
        zadd_spec(parts, store, floats).0 matches Resp::Int(_),
    ensures
        zadd_pairs(parts, floats, 2) is Ok,
        ({
            let pairs = zadd_pairs(parts, floats, 2)->Ok_0;
            let s2 = zadd_all(Seq::empty(), pairs).0;
            &&& s2.len() == pair_members(pairs).len()
            &&& zadd_spec(parts, store, floats) == (
                Resp::Int(pair_members(pairs).len() as i64),
                store.insert(key, EntryModel { data: ValueModel::ZSet(s2), expires_at: None }),
            )
        }),
{
    lemma_zadd_pairs_errors(parts, floats, 2);
    let pairs = zadd_pairs(parts, floats, 2)->Ok_0;
    lemma_zadd_all(Seq::empty(), pairs);
}

/// Reading ZADD's pairs fails only with an error reply.
proof fn lemma_zadd_pairs_errors(parts: Seq<Resp>, floats: Seq<Option<u64>>, i: int)
    ensures
        zadd_pairs(parts, floats, i) matches Err(e) ==> e is ErrorMsg,
    decreases parts.len() - i,
{
    if 0 <= i && i + 2 <= parts.len() {
        lemma_zadd_pairs_errors(parts, floats, i + 2);
    }
}

/// ZADD on a missing key, any requests that do not write `key` (reads of it
/// included), then `ZCARD key`:
/// when ZADD answers a number, it and ZCARD both answer the number of
/// distinct members the ZADD named, and ZCARD changes nothing.
pub proof fn lemma_zadd_new_then_zcard(
    zadd_parts: Seq<Resp>,
    zcard_name: Seq<u8>,
    key: Seq<u8>,
    store: Map<Seq<u8>, EntryModel>,
    t1: u128,
    floats: Seq<Option<u64>>,
    others: Seq<(Resp, u128, Seq<Option<u64>>)>,
    t2: u128,
    zcard_floats: Seq<Option<u64>>,
)
    requires
        zadd_parts.len() > 0,
        zadd_parts[0] matches Resp::Bulk(name) && ascii_upper(name) == "ZADD".spec_bytes(),
        bulk_arg(zadd_parts, 1) == Some(key),
        !store.contains_key(key),
        command_spec(Resp::Array(zadd_parts), store, t1, floats).0 matches ReplyModel::Value(
            Resp::Int(_),
        ),
        ascii_upper(zcard_name) == "ZCARD".spec_bytes(),
        forall|i: int| 0 <= i < others.len() ==> !writes_key(#[trigger] others[i].0, key),
    ensures
        ({
            let (added, after_zadd) = command_spec(Resp::Array(zadd_parts), store, t1, floats);
            let n = pair_members(zadd_pairs(zadd_parts, floats, 2)->Ok_0).len();
            let before = run(others, after_zadd);
            let (reply, after) = command_spec(
                bulk_request(seq![zcard_name, key]),
                before,
                t2,
                zcard_floats,
            );
            &&& zadd_pairs(zadd_parts, floats, 2) is Ok
            &&& added == ReplyModel::Value(Resp::Int(n as i64))
            &&& reply == ReplyModel::Value(Resp::Int(n as i64))
            &&& after == before
        }),
{
    lemma_dispatch_zadd(zadd_parts, store, t1, floats);
    lemma_zadd_new(zadd_parts, store, t1, floats, key);
    let pairs = zadd_pairs(zadd_parts, floats, 2)->Ok_0;
    let s2 = zadd_all(Seq::empty(), pairs).0;
    let after_zadd = zadd_spec(zadd_parts, store, floats).1;
    assert(after_zadd.contains_key(key));
    assert(after_zadd[key] == EntryModel { data: ValueModel::ZSet(s2), expires_at: None });
    lemma_run_keeps_key(others, after_zadd, key);
    let before = run(others, after_zadd);
    let cp = bulk_request(seq![zcard_name, key])->Array_0;
    assert(cp[0] == Resp::Bulk(zcard_name));
    assert(cp[1] == Resp::Bulk(key));
    lemma_dispatch_zcard(cp, before, t2, zcard_floats);
    assert(zcard_spec(cp, before) == Resp::Int(s2.len() as i64));
}

proof fn lemma_dispatch_zcard(
    parts: Seq<Resp>,
    store: Map<Seq<u8>, EntryModel>,
    now: u128,
    floats: Seq<Option<u64>>,
)
    requires
        parts.len() > 0,
        parts[0] matches Resp::Bulk(name) && ascii_upper(name) == "ZCARD".spec_bytes(),
    ensures
        command_spec(Resp::Array(parts), store, now, floats) == (
            ReplyModel::Value(zcard_spec(parts, store)),
            store,
        ),
{
    lemma_command_names();
}


// ---------------------------------------------------------------------------
// ZRANK, ZRANGE and score arguments
// ---------------------------------------------------------------------------

proof fn lemma_dispatch_zrank(
    parts: Seq<Resp>,
    store: Map<Seq<u8>, EntryModel>,
    now: u128,
    floats: Seq<Option<u64>>,
)
    requires
        parts.len() > 0,
        parts[0] matches Resp::Bulk(name) && ascii_upper(name) == "ZRANK".spec_bytes(),
    ensures
        command_spec(Resp::Array(parts), store, now, floats) == (
            ReplyModel::Value(zrank_spec(parts, store)),
            store,
        ),
{
    lemma_command_names();
}

proof fn lemma_dispatch_zrange(
    parts: Seq<Resp>,
    store: Map<Seq<u8>, EntryModel>,
    now: u128,
    floats: Seq<Option<u64>>,
)
    requires
        parts.len() > 0,
        parts[0] matches Resp::Bulk(name) && ascii_upper(name) == "ZRANGE".spec_bytes(),
    ensures
        command_spec(Resp::Array(parts), store, now, floats) == (
            ReplyModel::Value(zrange_spec(parts, store)),
            store,
        ),
{
    lemma_command_names();
}

/// `ZRANK key member` on a sorted set answers the member's position in the
/// set's order: the entry at that position is the member, and exactly the
/// entries before it come before it in score order, ties broken by member
/// bytes.  A member the set does not hold gets nothing.  ZRANK changes
/// nothing.
pub proof fn lemma_zrank_is_position(
    name: Seq<u8>,
    key: Seq<u8>,
    member: Seq<u8>,
    s: Seq<(u64, Seq<u8>)>,
    store: Map<Seq<u8>, EntryModel>,
    now: u128,
    floats: Seq<Option<u64>>,
)
    requires
        ascii_upper(name) == "ZRANK".spec_bytes(),
        store.contains_key(key),
        store[key].data == ValueModel::ZSet(s),
        zset_wf(s),
        s.len() <= i64::MAX,
    ensures
        ({
            let (reply, after) = command_spec(bulk_request(seq![name, key, member]), store, now, floats);
            &&& after == store
            &&& has_member(s, member) ==> (reply matches ReplyModel::Value(Resp::Int(r)) && 0 <= r
                < s.len() && s[r as int].1 == member && forall|j: int|
                0 <= j < s.len() ==> (j < r <==> entry_lt(#[trigger] s[j], s[r as int])))
            &&& !has_member(s, member) ==> reply == ReplyModel::Value(Resp::NullBulk)
        }),
{
    let parts = bulk_request(seq![name, key, member])->Array_0;
    assert(parts[0] == Resp::Bulk(name));
    assert(parts[1] == Resp::Bulk(key));
    assert(parts[2] == Resp::Bulk(member));
    lemma_dispatch_zrank(parts, store, now, floats);
    if has_member(s, member) {
        let r = member_index(s, member);
        assert forall|j: int| 0 <= j < s.len() implies (j < r <==> entry_lt(
            #[trigger] s[j],
            s[r],
        )) by {
            lemma_entry_order(s[j], s[r], s[j]);
            lemma_entry_order(s[r], s[j], s[r]);
            if j > r {
                assert(entry_lt(s[r], s[j]));
            }
        }
    }
}

/// `ZRANGE key start stop` on a sorted set of `n` members lists, in order,
/// the members at positions `lo` to `hi`: a negative index counts from the
/// end (`-1` is the last member), the start is clamped at the first
/// member and the stop at the last, and nothing is listed when `lo > hi`.
/// ZRANGE changes nothing.
pub proof fn lemma_zrange_lists_positions(
    name: Seq<u8>,
    key: Seq<u8>,
    start_text: Seq<u8>,
    stop_text: Seq<u8>,
    s: Seq<(u64, Seq<u8>)>,
    store: Map<Seq<u8>, EntryModel>,
    now: u128,
    floats: Seq<Option<u64>>,
)
    requires
        ascii_upper(name) == "ZRANGE".spec_bytes(),
        store.contains_key(key),
        store[key].data == ValueModel::ZSet(s),
        parse_i64_spec(start_text) is Some,
        parse_i64_spec(stop_text) is Some,
    ensures
        ({
            let (reply, after) = command_spec(
                bulk_request(seq![name, key, start_text, stop_text]),
                store,
                now,
                floats,
            );
            let n = s.len() as int;
            let start = parse_i64_spec(start_text).unwrap() as int;
            let stop = parse_i64_spec(stop_text).unwrap() as int;
            let from = if start < 0 {
                start + n
            } else {
                start
            };
            let to = if stop < 0 {
                stop + n
            } else {
                stop
            };
            let lo = if from < 0 {
                0
            } else {
                from
            };
            let hi = if to > n - 1 {
                n - 1
            } else {
                to
            };
            &&& after == store
            &&& reply == ReplyModel::Value(
                Resp::Array(
                    if lo <= hi {
                        Seq::new((hi - lo + 1) as nat, |i: int| Resp::Bulk(s[lo + i].1))
                    } else {
                        Seq::empty()
                    },
                ),
            )
        }),
{
    let parts = bulk_request(seq![name, key, start_text, stop_text])->Array_0;
    assert(parts[0] == Resp::Bulk(name));
    assert(parts[1] == Resp::Bulk(key));
    assert(parts[2] == Resp::Bulk(start_text));
    assert(parts[3] == Resp::Bulk(stop_text));
    lemma_dispatch_zrange(parts, store, now, floats);
    let start = parse_i64_spec(start_text).unwrap();
    let stop = parse_i64_spec(stop_text).unwrap();
    let z = zset_range(s, start, stop);
    let n = s.len() as int;
    let from = if start < 0 {
        start + n
    } else {
        start as int
    };
    let to = if stop < 0 {
        stop + n
    } else {
        stop as int
    };
    let lo = if from < 0 {
        0
    } else {
        from
    };
    let hi = if to > n - 1 {
        n - 1
    } else {
        to
    };
    let expect = if lo <= hi {
        Seq::new((hi - lo + 1) as nat, |i: int| Resp::Bulk(s[lo + i].1))
    } else {
        Seq::<Resp>::empty()
    };
    assert(bulk_items(z) =~= expect);
}

/// A ZADD score that is not one of the words `+inf`, `inf` and `-inf`
/// is the double read from its text, whatever its sign, when that double
/// is a number; text that reads as no double, or as NaN, is refused.
pub proof fn lemma_score_is_parsed_double(t: Seq<u8>, parsed: Option<u64>)
    requires
        t != "+inf".spec_bytes(),
        t != "inf".spec_bytes(),
        t != "-inf".spec_bytes(),
    ensures
        (parsed is Some && !is_nan_bits(parsed.unwrap())) ==> score_from_text(t, parsed)
            == Ok::<u64, Resp>(parsed.unwrap()),
        (parsed is None || is_nan_bits(parsed.unwrap())) ==> score_from_text(t, parsed) is Err,
{
}

/// `ZADD key score member` on a missing key, where the score's text is not
/// an infinity word and reads as the double `b` (not NaN), answers 1, and a
/// following `ZSCORE key member` answers `b`.
pub proof fn lemma_zadd_parsed_score(
    zadd_name: Seq<u8>,
    zscore_name: Seq<u8>,
    key: Seq<u8>,
    score_text: Seq<u8>,
    member: Seq<u8>,
    b: u64,
    store: Map<Seq<u8>, EntryModel>,
    t1: u128,
    t2: u128,
    floats: Seq<Option<u64>>,
    later_floats: Seq<Option<u64>>,
)
    requires
        ascii_upper(zadd_name) == "ZADD".spec_bytes(),
        ascii_upper(zscore_name) == "ZSCORE".spec_bytes(),
        !store.contains_key(key),
        score_text != "+inf".spec_bytes(),
        score_text != "inf".spec_bytes(),
        score_text != "-inf".spec_bytes(),
        float_arg(floats, 2) == Some(b),
        !is_nan_bits(b),
    ensures
        ({
            let (added, after_zadd) = command_spec(
                bulk_request(seq![zadd_name, key, score_text, member]),
                store,
                t1,
                floats,
            );
            let (reply, _) = command_spec(
                bulk_request(seq![zscore_name, key, member]),
                after_zadd,
                t2,
                later_floats,
            );
            &&& added == ReplyModel::Value(Resp::Int(1))
            &&& reply == ReplyModel::Score(b)
        }),
{
    lemma_score_is_parsed_double(score_text, float_arg(floats, 2));
    lemma_zadd_then_zscore(
        zadd_name,
        zscore_name,
        key,
        score_text,
        member,
        store,
        t1,
        t2,
        floats,
        later_floats,
    );
    assert(!has_member(target_set(store, key), member));
}

} // verus!
