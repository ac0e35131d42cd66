//! Command execution: what each request answers and how it changes the
//! keyspace.
//!
//! Scores of sorted sets are doubles.  The text of a score argument is read
//! into a double outside this library (`str::parse::<f64>`); a request comes
//! with, for each of its arguments, the bits of the double read from it, if
//! one is.  Likewise a ZSCORE reply carries the bits of the score, which the
//! caller writes out as text.

use vstd::prelude::*;
use vstd::string::StringSliceAdditionalSpecFns;
use crate::store::Storage;
use crate::text::{
    ascii_upper, bytes_equal, parse_i64, parse_i64_spec, text, to_ascii_uppercase,
};
use crate::types::{bulk_items, error_reply, lemma_array_view, resp_views, RedisValueRef, Resp};
use crate::value::{
    byte_views, is_nan, is_nan_bits, zset_add, zset_range, zset_rank, zset_score, RedisValue,
    SortedSetData, ValueModel, INFINITY_BITS, NEG_INFINITY_BITS,
};

verus! {

// ---------------------------------------------------------------------------
// Entries
// ---------------------------------------------------------------------------

/// A stored value with its expiry time, if any, in nanoseconds on the
/// keyspace's clock.
#[derive(Debug)]
pub struct ValueEntry {
    data: RedisValue,
    expires_at: Option<u128>,
}

/// The model of an entry.
pub struct EntryModel {
    pub data: ValueModel,
    pub expires_at: Option<u128>,
}

impl View for ValueEntry {
    type V = EntryModel;

    closed spec fn view(&self) -> EntryModel {
        EntryModel { data: self.data@, expires_at: self.expires_at }
    }
}

/// The entry's time has come.
pub open spec fn entry_expired(e: EntryModel, now: u128) -> bool {
    match e.expires_at {
        Some(t) => now >= t,
        None => false,
    }
}

impl ValueEntry {
    /// An entry holding `data`, expiring at `expires_at`.
    pub fn new(data: RedisValue, expires_at: Option<u128>) -> (r: Self)
        ensures
            r@ == (EntryModel { data: data@, expires_at }),
    {
        Self { data, expires_at }
    }

    /// Whether the entry has expired at time `now`.
    pub fn is_expired(&self, now: u128) -> (r: bool)
        ensures
            r == entry_expired(self@, now),
    {
        match self.expires_at {
            Some(t) => now >= t,
            None => false,
        }
    }
}

impl Clone for ValueEntry {
    fn clone(&self) -> (r: Self)
        ensures
            r@ == self@,
    {
        ValueEntry { data: self.data.clone(), expires_at: self.expires_at }
    }
}

// ---------------------------------------------------------------------------
// Replies
// ---------------------------------------------------------------------------

/// The answer to a request: a RESP value, or the bits of a ZSCORE score,
/// which go out as the bulk string of the double's decimal text.
#[derive(Debug)]
pub enum CommandReply {
    Value(RedisValueRef),
    Score(u64),
}

/// The model of a reply.
pub enum ReplyModel {
    Value(Resp),
    Score(u64),
}

impl View for CommandReply {
    type V = ReplyModel;

    open spec fn view(&self) -> ReplyModel {
        match self {
            CommandReply::Value(v) => ReplyModel::Value(v@),
            CommandReply::Score(b) => ReplyModel::Score(*b),
        }
    }
}

fn error_msg(msg: &str) -> (r: RedisValueRef)
    ensures
        r@ == error_reply(msg),
{
    proof {
        reveal_with_fuel(<RedisValueRef as View>::view, 1);
    }
    RedisValueRef::ErrorMsg(text(msg))
}

fn simple_string(msg: &str) -> (r: RedisValueRef)
    ensures
        r@ == Resp::Simple(msg.spec_bytes()),
{
    proof {
        reveal_with_fuel(<RedisValueRef as View>::view, 1);
    }
    RedisValueRef::SimpleString(text(msg))
}

fn bulk_string(b: &[u8]) -> (r: RedisValueRef)
    ensures
        r@ == Resp::Bulk(b@),
{
    proof {
        reveal_with_fuel(<RedisValueRef as View>::view, 1);
    }
    RedisValueRef::BulkString(vstd::slice::slice_to_vec(b))
}

fn null_bulk_string() -> (r: RedisValueRef)
    ensures
        r@ == Resp::NullBulk,
{
    proof {
        reveal_with_fuel(<RedisValueRef as View>::view, 1);
    }
    RedisValueRef::NullBulkString
}

fn integer(n: i64) -> (r: RedisValueRef)
    ensures
        r@ == Resp::Int(n),
{
    proof {
        reveal_with_fuel(<RedisValueRef as View>::view, 1);
    }
    RedisValueRef::Int(n)
}

// ---------------------------------------------------------------------------
// The meaning of requests
// ---------------------------------------------------------------------------

/// The bytes of argument `i` when it is a bulk string.
pub open spec fn bulk_arg(parts: Seq<Resp>, i: int) -> Option<Seq<u8>> {
    if 0 <= i < parts.len() {
        match parts[i] {
            Resp::Bulk(b) => Some(b),
            _ => None,
        }
    } else {
        None
    }
}

/// The bits of the double read from argument `i`, if one was.
pub open spec fn float_arg(floats: Seq<Option<u64>>, i: int) -> Option<u64> {
    if 0 <= i < floats.len() {
        floats[i]
    } else {
        None
    }
}

/// The reply to an operation on a key that holds the other kind of value.
pub open spec fn wrong_type() -> Resp {
    error_reply("WRONGTYPE Operation against a key holding wrong type value")
}

/// The same reply as ZRANK and ZSCORE spell it.
pub open spec fn wrong_type_lower() -> Resp {
    error_reply("WRONGTYPE operation against a key holding wrong type value")
}

/// GET `key`: the string under the key; nothing for a missing key, and an
/// expired key is removed and answered as missing.
pub open spec fn get_spec(parts: Seq<Resp>, store: Map<Seq<u8>, EntryModel>, now: u128) -> (
    Resp,
    Map<Seq<u8>, EntryModel>,
) {
    if parts.len() != 2 {
        (error_reply("ERR wrong number of arguments for 'get' command"), store)
    } else if bulk_arg(parts, 1) is None {
        (error_reply("ERR invalid key type"), store)
    } else {
        let key = bulk_arg(parts, 1).unwrap();
        if !store.contains_key(key) {
            (Resp::NullBulk, store)
        } else if entry_expired(store[key], now) {
            (Resp::NullBulk, store.remove(key))
        } else {
            match store[key].data {
                ValueModel::Str(v) => (Resp::Bulk(v), store),
                ValueModel::ZSet(_) => (wrong_type(), store),
            }
        }
    }
}

/// `now` plus `ms` milliseconds, in nanoseconds, stopping at the largest time.
pub open spec fn expiry_after(now: u128, ms: int) -> u128 {
    if now + ms * 1_000_000 <= u128::MAX {
        (now + ms * 1_000_000) as u128
    } else {
        u128::MAX
    }
}

/// The expiry that SET's options ask for: none without options, and
/// `PX ms` with a positive `ms` sets it `ms` milliseconds from now.
pub open spec fn set_expiry(parts: Seq<Resp>, now: u128) -> Result<Option<u128>, Resp> {
    if parts.len() != 5 {
        Ok(None)
    } else if bulk_arg(parts, 3) is None {
        Err(error_reply("ERR syntax error"))
    } else if ascii_upper(bulk_arg(parts, 3).unwrap()) != "PX".spec_bytes() {
        Err(error_reply("ERR syntax error"))
    } else if bulk_arg(parts, 4) is None {
        Err(error_reply("ERR syntax error"))
    } else {
        match parse_i64_spec(bulk_arg(parts, 4).unwrap()) {
            None => Err(error_reply("ERR value is not integer or out of range")),
            Some(ms) => if ms > 0 {
                Ok(Some(expiry_after(now, ms as int)))
            } else {
                Err(error_reply("ERR invalid expire time in 'set' command"))
            },
        }
    }
}

/// SET `key value [PX ms]`: stores the string, replacing whatever the key
/// held, with the expiry asked for.
pub open spec fn set_spec(parts: Seq<Resp>, store: Map<Seq<u8>, EntryModel>, now: u128) -> (
    Resp,
    Map<Seq<u8>, EntryModel>,
) {
    if parts.len() != 3 && parts.len() != 5 {
        (error_reply("ERR wrong number of arguments for 'set' command"), store)
    } else if bulk_arg(parts, 1) is None {
        (error_reply("ERR invalid key type"), store)
    } else if bulk_arg(parts, 2) is None {
        (error_reply("ERR invalid value type"), store)
    } else {
        match set_expiry(parts, now) {
            Err(e) => (e, store),
            Ok(expires_at) => (
                Resp::Simple("OK".spec_bytes()),
                store.insert(
                    bulk_arg(parts, 1).unwrap(),
                    EntryModel {
                        data: ValueModel::Str(bulk_arg(parts, 2).unwrap()),
                        expires_at,
                    },
                ),
            ),
        }
    }
}

/// The score a ZADD score argument gives: `inf`, `+inf` and `-inf` are the
/// infinities, any other text gives the double read from it, which must be
/// a number.
pub open spec fn score_from_text(t: Seq<u8>, parsed: Option<u64>) -> Result<u64, Resp> {
    if t == "+inf".spec_bytes() || t == "inf".spec_bytes() {
        Ok(INFINITY_BITS)
    } else if t == "-inf".spec_bytes() {
        Ok(NEG_INFINITY_BITS)
    } else {
        match parsed {
            Some(b) => if is_nan_bits(b) {
                Err(error_reply("ERR value is not a valid float"))
            } else {
                Ok(b)
            },
            None => Err(error_reply("ERR value is not a valid float")),
        }
    }
}

/// The score of the pair starting at argument `i`.
pub open spec fn score_arg(parts: Seq<Resp>, floats: Seq<Option<u64>>, i: int) -> Result<u64, Resp> {
    match bulk_arg(parts, i) {
        None => Err(error_reply("ERR invalid score type")),
        Some(t) => score_from_text(t, float_arg(floats, i)),
    }
}

/// The score-member pairs of ZADD from argument `i` on, or the error of the
/// first pair that is wrong (its score checked before its member).
pub open spec fn zadd_pairs(parts: Seq<Resp>, floats: Seq<Option<u64>>, i: int) -> Result<
    Seq<(u64, Seq<u8>)>,
    Resp,
>
    decreases parts.len() - i,
{
    if i < 0 || i >= parts.len() {
        Ok(Seq::empty())
    } else {
        match score_arg(parts, floats, i) {
            Err(e) => Err(e),
            Ok(score) => if i + 1 < parts.len() && bulk_arg(parts, i + 1) is Some {
                match zadd_pairs(parts, floats, i + 2) {
                    Err(e) => Err(e),
                    Ok(rest) => Ok(seq![(score, bulk_arg(parts, i + 1).unwrap())] + rest),
                }
            } else {
                Err(error_reply("ERR invalid member type"))
            },
        }
    }
}

/// The set after adding the pairs in order, and how many members were new.
pub open spec fn zadd_all(s: Seq<(u64, Seq<u8>)>, pairs: Seq<(u64, Seq<u8>)>) -> (
    Seq<(u64, Seq<u8>)>,
    int,
)
    decreases pairs.len(),
{
    if pairs.len() == 0 {
        (s, 0)
    } else {
        let before = zadd_all(s, pairs.drop_last());
        let step = zset_add(before.0, pairs.last().1, pairs.last().0);
        (step.0, before.1 + if step.1 {
            1int
        } else {
            0int
        })
    }
}

/// ZADD `key score member [score member ...]`: adds the members to the
/// sorted set under the key (made empty if the key is missing) and answers
/// how many were new.
pub open spec fn zadd_spec(
    parts: Seq<Resp>,
    store: Map<Seq<u8>, EntryModel>,
    floats: Seq<Option<u64>>,
) -> (Resp, Map<Seq<u8>, EntryModel>) {
    if parts.len() < 4 || (parts.len() - 2) % 2 != 0 {
        (error_reply("ERR wrong number of arguments for 'zadd' command"), store)
    } else if bulk_arg(parts, 1) is None {
        (error_reply("ERR invalid key type"), store)
    } else {
        let key = bulk_arg(parts, 1).unwrap();
        match zadd_pairs(parts, floats, 2) {
            Err(e) => (e, store),
            Ok(pairs) => if store.contains_key(key) {
                match store[key].data {
                    ValueModel::ZSet(s) => {
                        let (s2, n) = zadd_all(s, pairs);
                        (
                            Resp::Int(n as i64),
                            store.insert(
                                key,
                                EntryModel {
                                    data: ValueModel::ZSet(s2),
                                    expires_at: store[key].expires_at,
                                },
                            ),
                        )
                    },
                    ValueModel::Str(_) => (wrong_type(), store),
                }
            } else {
                let (s2, n) = zadd_all(Seq::empty(), pairs);
                (
                    Resp::Int(n as i64),
                    store.insert(key, EntryModel { data: ValueModel::ZSet(s2), expires_at: None }),
                )
            },
        }
    }
}

/// A ZRANGE index argument.
pub open spec fn index_arg(parts: Seq<Resp>, i: int) -> Result<i64, Resp> {
    match bulk_arg(parts, i) {
        Some(t) => match parse_i64_spec(t) {
            Some(v) => Ok(v),
            None => Err(error_reply("ERR value is not an integer or out of range")),
        },
        None => Err(error_reply("ERR invalid argument")),
    }
}

/// ZRANGE `key start stop`: the members ranked `start` to `stop`.
pub open spec fn zrange_spec(parts: Seq<Resp>, store: Map<Seq<u8>, EntryModel>) -> Resp {
    if parts.len() != 4 {
        error_reply("ERR wrong number of arguments for 'zrange' command")
    } else if bulk_arg(parts, 1) is None {
        error_reply("ERR invalid key type")
    } else {
        let key = bulk_arg(parts, 1).unwrap();
        match index_arg(parts, 2) {
            Err(e) => e,
            Ok(start) => match index_arg(parts, 3) {
                Err(e) => e,
                Ok(stop) => if !store.contains_key(key) {
                    Resp::Array(Seq::empty())
                } else {
                    match store[key].data {
                        ValueModel::ZSet(s) => Resp::Array(bulk_items(zset_range(s, start, stop))),
                        ValueModel::Str(_) => wrong_type(),
                    }
                },
            },
        }
    }
}

/// ZCARD `key`: the number of members.
pub open spec fn zcard_spec(parts: Seq<Resp>, store: Map<Seq<u8>, EntryModel>) -> Resp {
    if parts.len() != 2 {
        error_reply("ERR wrong number of arguments for 'zcard' command")
    } else if bulk_arg(parts, 1) is None {
        error_reply("ERR invalid key type")
    } else {
        let key = bulk_arg(parts, 1).unwrap();
        if !store.contains_key(key) {
            Resp::Int(0)
        } else {
            match store[key].data {
                ValueModel::ZSet(s) => Resp::Int(s.len() as i64),
                ValueModel::Str(_) => wrong_type(),
            }
        }
    }
}

/// ZRANK `key member`: the member's rank.
pub open spec fn zrank_spec(parts: Seq<Resp>, store: Map<Seq<u8>, EntryModel>) -> Resp {
    if parts.len() != 3 {
        error_reply("ERR wrong number of arguments for 'zrank' command")
    } else if bulk_arg(parts, 1) is None {
        error_reply("ERR invalid key type")
    } else if bulk_arg(parts, 2) is None {
        error_reply("ERR invalid member type")
    } else {
        let key = bulk_arg(parts, 1).unwrap();
        if !store.contains_key(key) {
            Resp::NullBulk
        } else {
            match store[key].data {
                ValueModel::ZSet(s) => match zset_rank(s, bulk_arg(parts, 2).unwrap()) {
                    Some(r) => Resp::Int(r as i64),
                    None => Resp::NullBulk,
                },
                ValueModel::Str(_) => wrong_type_lower(),
            }
        }
    }
}

/// ZSCORE `key member`: the member's score.
pub open spec fn zscore_spec(parts: Seq<Resp>, store: Map<Seq<u8>, EntryModel>) -> ReplyModel {
    if parts.len() != 3 {
        ReplyModel::Value(error_reply("ERR wrong number of arguments for 'zscore' command"))
    } else if bulk_arg(parts, 1) is None {
        ReplyModel::Value(error_reply("ERR invalid key type"))
    } else if bulk_arg(parts, 2) is None {
        ReplyModel::Value(error_reply("ERR invalid member type"))
    } else {
        let key = bulk_arg(parts, 1).unwrap();
        if !store.contains_key(key) {
            ReplyModel::Value(Resp::NullBulk)
        } else {
            match store[key].data {
                ValueModel::ZSet(s) => match zset_score(s, bulk_arg(parts, 2).unwrap()) {
                    Some(b) => ReplyModel::Score(b),
                    None => ReplyModel::Value(Resp::NullBulk),
                },
                ValueModel::Str(_) => ReplyModel::Value(wrong_type_lower()),
            }
        }
    }
}

/// What a request answers and the keyspace after it, at time `now`, with
/// `floats` the doubles read from the request's arguments.
pub open spec fn command_spec(
    request: Resp,
    store: Map<Seq<u8>, EntryModel>,
    now: u128,
    floats: Seq<Option<u64>>,
) -> (ReplyModel, Map<Seq<u8>, EntryModel>) {
    match request {
        Resp::Array(parts) => match bulk_arg(parts, 0) {
            Some(name) => {
                let cmd = ascii_upper(name);
                if cmd == "PING".spec_bytes() {
                    (ReplyModel::Value(Resp::Simple("PONG".spec_bytes())), store)
                } else if cmd == "ECHO".spec_bytes() {
                    match bulk_arg(parts, 1) {
                        Some(msg) => (ReplyModel::Value(Resp::Bulk(msg)), store),
                        None => (
                            ReplyModel::Value(
                                error_reply("ERR wrong number of arguments for 'echo' command"),
                            ),
                            store,
                        ),
                    }
                } else if cmd == "SET".spec_bytes() {
                    let (r, s) = set_spec(parts, store, now);
                    (ReplyModel::Value(r), s)
                } else if cmd == "GET".spec_bytes() {
                    let (r, s) = get_spec(parts, store, now);
                    (ReplyModel::Value(r), s)
                } else if cmd == "ZADD".spec_bytes() {
                    let (r, s) = zadd_spec(parts, store, floats);
                    (ReplyModel::Value(r), s)
                } else if cmd == "ZRANK".spec_bytes() {
                    (ReplyModel::Value(zrank_spec(parts, store)), store)
                } else if cmd == "ZRANGE".spec_bytes() {
                    (ReplyModel::Value(zrange_spec(parts, store)), store)
                } else if cmd == "ZCARD".spec_bytes() {
                    (ReplyModel::Value(zcard_spec(parts, store)), store)
                } else if cmd == "ZSCORE".spec_bytes() {
                    (zscore_spec(parts, store), store)
                } else {
                    (ReplyModel::Value(error_reply("ERR unknown command")), store)
                }
            },
            None => (ReplyModel::Value(error_reply("ERR missing command")), store),
        },
        _ => (ReplyModel::Value(error_reply("ERR expected array command")), store),
    }
}

// ---------------------------------------------------------------------------
// Execution
// ---------------------------------------------------------------------------

fn bulk_at(parts: &Vec<RedisValueRef>, i: usize) -> (r: Option<&Vec<u8>>)
    ensures
        match r {
            Some(b) => bulk_arg(resp_views(parts@), i as int) == Some(b@),
            None => bulk_arg(resp_views(parts@), i as int) is None,
        },
{
    proof {
        reveal_with_fuel(<RedisValueRef as View>::view, 1);
    }
    if i < parts.len() {
        match &parts[i] {
            RedisValueRef::BulkString(b) => Some(b),
            _ => None,
        }
    } else {
        None
    }
}

fn float_at(floats: &Vec<Option<u64>>, i: usize) -> (r: Option<u64>)
    ensures
        r == float_arg(floats@, i as int),
{
    if i < floats.len() {
        floats[i]
    } else {
        None
    }
}

fn handle_get(parts: &Vec<RedisValueRef>, storage: &mut Storage, now: u128) -> (r: RedisValueRef)
    ensures
        (r@, final(storage)@) == get_spec(resp_views(parts@), old(storage)@, now),
{
    if parts.len() != 2 {
        return error_msg("ERR wrong number of arguments for 'get' command");
    }
    let key = match bulk_at(parts, 1) {
        Some(key) => key,
        None => return error_msg("ERR invalid key type"),
    };
    match storage.get(key.as_slice()) {
        Some(entry) => {
            if entry.is_expired(now) {
                let _ = storage.remove(key.as_slice());
                null_bulk_string()
            } else {
                match &entry.data {
                    RedisValue::String(data) => bulk_string(data.as_slice()),
                    _ => error_msg("WRONGTYPE Operation against a key holding wrong type value"),
                }
            }
        },
        None => null_bulk_string(),
    }
}

fn handle_set(parts: &Vec<RedisValueRef>, storage: &mut Storage, now: u128) -> (r: RedisValueRef)
    ensures
        (r@, final(storage)@) == set_spec(resp_views(parts@), old(storage)@, now),
{
    let ghost p = resp_views(parts@);
    if parts.len() != 3 && parts.len() != 5 {
        return error_msg("ERR wrong number of arguments for 'set' command");
    }
    let key = match bulk_at(parts, 1) {
        Some(msg) => vstd::slice::slice_to_vec(msg.as_slice()),
        None => return error_msg("ERR invalid key type"),
    };
    let value = match bulk_at(parts, 2) {
        Some(msg) => vstd::slice::slice_to_vec(msg.as_slice()),
        None => return error_msg("ERR invalid value type"),
    };
    let expires_at: Option<u128> = if parts.len() == 5 {
        let option = match bulk_at(parts, 3) {
            Some(opt) => opt,
            None => return error_msg("ERR syntax error"),
        };
        let upper = to_ascii_uppercase(option.as_slice());
        if !bytes_equal(upper.as_slice(), "PX".as_bytes()) {
            return error_msg("ERR syntax error");
        }
        let px_value: i64 = match bulk_at(parts, 4) {
            Some(val) => match parse_i64(val.as_slice()) {
                Some(ms) => {
                    if ms > 0 {
                        ms
                    } else {
                        return error_msg("ERR invalid expire time in 'set' command");
                    }
                },
                None => return error_msg("ERR value is not integer or out of range"),
            },
            None => return error_msg("ERR syntax error"),
        };
        let delta: u128 = (px_value as u128) * 1_000_000;
        Some(now.saturating_add(delta))
    } else {
        None
    };
    assert(set_expiry(p, now) == Ok::<Option<u128>, Resp>(expires_at));
    storage.insert(key, ValueEntry::new(RedisValue::String(value), expires_at));
    simple_string("OK")
}

fn score_at(parts: &Vec<RedisValueRef>, floats: &Vec<Option<u64>>, i: usize) -> (r: Result<
    u64,
    RedisValueRef,
>)
    ensures
        match r {
            Ok(b) => score_arg(resp_views(parts@), floats@, i as int) == Ok::<u64, Resp>(b),
            Err(e) => score_arg(resp_views(parts@), floats@, i as int) == Err::<u64, Resp>(e@),
        },
{
    let t = match bulk_at(parts, i) {
        Some(t) => t,
        None => return Err(error_msg("ERR invalid score type")),
    };
    parse_score(t.as_slice(), float_at(floats, i))
}

/// The score written by a ZADD score argument `text`, where `parsed` holds
/// the bits of the double that `str::parse::<f64>` reads from it, if any.
fn parse_score(text: &[u8], parsed: Option<u64>) -> (r: Result<u64, RedisValueRef>)
    ensures
        match r {
            Ok(b) => score_from_text(text@, parsed) == Ok::<u64, Resp>(b),
            Err(e) => score_from_text(text@, parsed) == Err::<u64, Resp>(e@),
        },
{
    if bytes_equal(text, "+inf".as_bytes()) || bytes_equal(text, "inf".as_bytes()) {
        return Ok(INFINITY_BITS);
    }
    if bytes_equal(text, "-inf".as_bytes()) {
        return Ok(NEG_INFINITY_BITS);
    }
    match parsed {
        Some(b) => {
            if is_nan(b) {
                Err(error_msg("ERR value is not a valid float"))
            } else {
                Ok(b)
            }
        },
        None => Err(error_msg("ERR value is not a valid float")),
    }
}

/// The views of score-member pairs.
pub open spec fn pair_views(v: Seq<(u64, Vec<u8>)>) -> Seq<(u64, Seq<u8>)> {
    Seq::new(v.len(), |i: int| (v[i].0, v[i].1@))
}

fn add_all(z: &mut SortedSetData, pairs: &Vec<(u64, Vec<u8>)>) -> (count: i64)
    requires
        pairs@.len() < i64::MAX,
    ensures
        (final(z)@, count as int) == zadd_all(old(z)@, pair_views(pairs@)),
{
    let ghost z0 = z@;
    let ghost pv = pair_views(pairs@);
    let mut count: i64 = 0;
    let mut i: usize = 0;
    assert(pv.take(0) =~= Seq::<(u64, Seq<u8>)>::empty());
    while i < pairs.len()
        invariant
            pv == pair_views(pairs@),
            pairs@.len() < i64::MAX,
            i <= pairs@.len(),
            0 <= count <= i,
            (z@, count as int) == zadd_all(z0, pv.take(i as int)),
        decreases pairs@.len() - i,
    {
        let member = vstd::slice::slice_to_vec(pairs[i].1.as_slice());
        let added = z.add(member, pairs[i].0);
        if added {
            count = count + 1;
        }
        assert(pv.take(i + 1).drop_last() =~= pv.take(i as int));
        i = i + 1;
    }
    assert(pv.take(i as int) =~= pv);
    count
}

fn handle_zadd(parts: &Vec<RedisValueRef>, storage: &mut Storage, floats: &Vec<Option<u64>>) -> (r:
    RedisValueRef)
    ensures
        (r@, final(storage)@) == zadd_spec(resp_views(parts@), old(storage)@, floats@),
{
    let ghost p = resp_views(parts@);
    let n = parts.len();
    if n < 4 || (n - 2) % 2 != 0 {
        return error_msg("ERR wrong number of arguments for 'zadd' command");
    }
    let key = match bulk_at(parts, 1) {
        Some(msg) => vstd::slice::slice_to_vec(msg.as_slice()),
        None => return error_msg("ERR invalid key type"),
    };
    let mut pairs: Vec<(u64, Vec<u8>)> = Vec::new();
    let mut idx: usize = 2;
    while idx < n
        invariant
            p == resp_views(parts@),
            storage@ == old(storage)@,
            bulk_arg(p, 1) is Some,
            n == parts@.len(),
            n >= 4,
            (n - 2) % 2 == 0,
            2 <= idx <= n,
            (idx - 2) % 2 == 0,
            pairs@.len() == (idx - 2) / 2,
            zadd_pairs(p, floats@, 2) == match zadd_pairs(p, floats@, idx as int) {
                Ok(rest) => Ok(pair_views(pairs@) + rest),
                Err(e) => Err::<Seq<(u64, Seq<u8>)>, Resp>(e),
            },
        decreases n - idx,
    {
        let score = match score_at(parts, floats, idx) {
            Ok(s) => s,
            Err(e) => return e,
        };
        let member = match bulk_at(parts, idx + 1) {
            Some(m) => vstd::slice::slice_to_vec(m.as_slice()),
            None => return error_msg("ERR invalid member type"),
        };
        let ghost before = pairs@;
        pairs.push((score, member));
        proof {
            assert(pair_views(pairs@) =~= pair_views(before).push((score, member@)));
            match zadd_pairs(p, floats@, idx + 2) {
                Ok(rest) => {
                    assert(pair_views(before) + (seq![(score, member@)] + rest) =~= pair_views(
                        pairs@,
                    ) + rest);
                },
                Err(_) => {},
            }
        }
        idx = idx + 2;
    }
    assert(pair_views(pairs@) + Seq::<(u64, Seq<u8>)>::empty() =~= pair_views(pairs@));
    match storage.remove(key.as_slice()) {
        Some(entry) => {
            let ValueEntry { data, expires_at } = entry;
            match data {
                RedisValue::SortedSet(mut zset) => {
                    let added_count = add_all(&mut zset, &pairs);
                    storage.insert(key, ValueEntry::new(RedisValue::SortedSet(zset), expires_at));
                    integer(added_count)
                },
                other => {
                    let ghost before = old(storage)@;
                    storage.insert(key, ValueEntry::new(other, expires_at));
                    assert(storage@ =~= before);
                    error_msg("WRONGTYPE Operation against a key holding wrong type value")
                },
            }
        },
        None => {
            let mut zset = SortedSetData::new();
            let added_count = add_all(&mut zset, &pairs);
            storage.insert(key, ValueEntry::new(RedisValue::SortedSet(zset), None));
            integer(added_count)
        },
    }
}

fn index_at(parts: &Vec<RedisValueRef>, i: usize) -> (r: Result<i64, RedisValueRef>)
    ensures
        match r {
            Ok(v) => index_arg(resp_views(parts@), i as int) == Ok::<i64, Resp>(v),
            Err(e) => index_arg(resp_views(parts@), i as int) == Err::<i64, Resp>(e@),
        },
{
    match bulk_at(parts, i) {
        Some(s) => match parse_i64(s.as_slice()) {
            Some(v) => Ok(v),
            None => Err(error_msg("ERR value is not an integer or out of range")),
        },
        None => Err(error_msg("ERR invalid argument")),
    }
}

fn handle_zrange(parts: &Vec<RedisValueRef>, storage: &Storage) -> (r: RedisValueRef)
    ensures
        r@ == zrange_spec(resp_views(parts@), storage@),
{
    if parts.len() != 4 {
        return error_msg("ERR wrong number of arguments for 'zrange' command");
    }
    let key = match bulk_at(parts, 1) {
        Some(msg) => msg,
        None => return error_msg("ERR invalid key type"),
    };
    let start = match index_at(parts, 2) {
        Ok(v) => v,
        Err(e) => return e,
    };
    let stop = match index_at(parts, 3) {
        Ok(v) => v,
        Err(e) => return e,
    };
    let entry = match storage.get(key.as_slice()) {
        Some(e) => e,
        None => {
            let items: Vec<RedisValueRef> = Vec::new();
            proof {
                lemma_array_view(items);
                assert(resp_views(items@) =~= Seq::<Resp>::empty());
            }
            return RedisValueRef::Array(items);
        },
    };
    let zset = match &entry.data {
        RedisValue::SortedSet(z) => z,
        _ => return error_msg("WRONGTYPE Operation against a key holding wrong type value"),
    };
    let members = zset.range(start, stop);
    let mut items: Vec<RedisValueRef> = Vec::new();
    let mut i: usize = 0;
    while i < members.len()
        invariant
            i <= members@.len(),
            items@.len() == i,
            forall|k: int| 0 <= k < i ==> (#[trigger] items@[k])@ == Resp::Bulk(members@[k]@),
        decreases members@.len() - i,
    {
        items.push(bulk_string(members[i].as_slice()));
        i = i + 1;
    }
    proof {
        lemma_array_view(items);
        assert(resp_views(items@) =~= bulk_items(byte_views(members@)));
    }
    RedisValueRef::Array(items)
}

fn handle_zcard(parts: &Vec<RedisValueRef>, storage: &Storage) -> (r: RedisValueRef)
    ensures
        r@ == zcard_spec(resp_views(parts@), storage@),
{
    if parts.len() != 2 {
        return error_msg("ERR wrong number of arguments for 'zcard' command");
    }
    let key = match bulk_at(parts, 1) {
        Some(msg) => msg,
        None => return error_msg("ERR invalid key type"),
    };
    let entry = match storage.get(key.as_slice()) {
        Some(e) => e,
        None => return integer(0),
    };
    match &entry.data {
        RedisValue::SortedSet(z) => integer(z.len() as i64),
        _ => error_msg("WRONGTYPE Operation against a key holding wrong type value"),
    }
}

fn handle_zrank(parts: &Vec<RedisValueRef>, storage: &Storage) -> (r: RedisValueRef)
    ensures
        r@ == zrank_spec(resp_views(parts@), storage@),
{
    if parts.len() != 3 {
        return error_msg("ERR wrong number of arguments for 'zrank' command");
    }
    let key = match bulk_at(parts, 1) {
        Some(msg) => msg,
        None => return error_msg("ERR invalid key type"),
    };
    let member = match bulk_at(parts, 2) {
        Some(msg) => msg,
        None => return error_msg("ERR invalid member type"),
    };
    let entry = match storage.get(key.as_slice()) {
        Some(entry) => entry,
        None => return null_bulk_string(),
    };
    let zset = match &entry.data {
        RedisValue::SortedSet(z) => z,
        _ => return error_msg("WRONGTYPE operation against a key holding wrong type value"),
    };
    match zset.rank(member.as_slice()) {
        Some(r) => integer(r),
        None => null_bulk_string(),
    }
}

fn handle_zscore(parts: &Vec<RedisValueRef>, storage: &Storage) -> (r: CommandReply)
    ensures
        r@ == zscore_spec(resp_views(parts@), storage@),
{
    if parts.len() != 3 {
        return CommandReply::Value(
            error_msg("ERR wrong number of arguments for 'zscore' command"),
        );
    }
    let key = match bulk_at(parts, 1) {
        Some(msg) => msg,
        None => return CommandReply::Value(error_msg("ERR invalid key type")),
    };
    let member = match bulk_at(parts, 2) {
        Some(msg) => msg,
        None => return CommandReply::Value(error_msg("ERR invalid member type")),
    };
    let entry = match storage.get(key.as_slice()) {
        Some(entry) => entry,
        None => return CommandReply::Value(null_bulk_string()),
    };
    let zset = match &entry.data {
        RedisValue::SortedSet(z) => z,
        _ => return CommandReply::Value(
            error_msg("WRONGTYPE operation against a key holding wrong type value"),
        ),
    };
    match zset.score(member.as_slice()) {
        Some(s) => CommandReply::Score(s),
        None => CommandReply::Value(null_bulk_string()),
    }
}

/// Runs one request at time `now` (nanoseconds on the keyspace's clock),
/// where `floats[i]` holds the bits of the double that `str::parse::<f64>`
/// reads from argument `i`, if it reads one.
pub fn execute(value: RedisValueRef, storage: &mut Storage, now: u128, floats: &Vec<Option<u64>>) -> (r:
    CommandReply)
    ensures
        (r@, final(storage)@) == command_spec(value@, old(storage)@, now, floats@),
{
    proof {
        reveal_with_fuel(<RedisValueRef as View>::view, 1);
    }
    let parts = match value {
        RedisValueRef::Array(parts) => parts,
        _ => return CommandReply::Value(error_msg("ERR expected array command")),
    };
    proof {
        lemma_array_view(parts);
    }
    let cmd = match bulk_at(&parts, 0) {
        Some(cmd) => cmd,
        None => return CommandReply::Value(error_msg("ERR missing command")),
    };
    let name = to_ascii_uppercase(cmd.as_slice());
    let name = name.as_slice();
    if bytes_equal(name, "PING".as_bytes()) {
        CommandReply::Value(simple_string("PONG"))
    } else if bytes_equal(name, "ECHO".as_bytes()) {
        match bulk_at(&parts, 1) {
            Some(msg) => CommandReply::Value(bulk_string(msg.as_slice())),
            None => CommandReply::Value(
                error_msg("ERR wrong number of arguments for 'echo' command"),
            ),
        }
    } else if bytes_equal(name, "SET".as_bytes()) {
        CommandReply::Value(handle_set(&parts, storage, now))
    } else if bytes_equal(name, "GET".as_bytes()) {
        CommandReply::Value(handle_get(&parts, storage, now))
    } else if bytes_equal(name, "ZADD".as_bytes()) {
        CommandReply::Value(handle_zadd(&parts, storage, floats))
    } else if bytes_equal(name, "ZRANK".as_bytes()) {
        CommandReply::Value(handle_zrank(&parts, storage))
    } else if bytes_equal(name, "ZRANGE".as_bytes()) {
        CommandReply::Value(handle_zrange(&parts, storage))
    } else if bytes_equal(name, "ZCARD".as_bytes()) {
        CommandReply::Value(handle_zcard(&parts, storage))
    } else if bytes_equal(name, "ZSCORE".as_bytes()) {
        handle_zscore(&parts, storage)
    } else {
        CommandReply::Value(error_msg("ERR unknown command"))
    }
}

/// Runs one request against the keyspace at the current time.
pub fn handle_command(value: RedisValueRef, storage: &mut Storage, floats: &Vec<Option<u64>>) -> (r:
    CommandReply)
    ensures
        exists|now: u128| #[trigger]
            command_spec(value@, old(storage)@, now, floats@) == (r@, final(storage)@),
{
    let now = storage.now();
    execute(value, storage, now, floats)
}

} // verus!
