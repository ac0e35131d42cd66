use codecrafters_redis::command::{execute, handle_command, CommandReply, ValueEntry};
use codecrafters_redis::store::Storage;
use codecrafters_redis::types::RedisValueRef;
use codecrafters_redis::value::{RedisValue, SortedSetData};

fn req(args: &[&str]) -> RedisValueRef {
    RedisValueRef::Array(
        args.iter()
            .map(|a| RedisValueRef::BulkString(a.as_bytes().to_vec()))
            .collect(),
    )
}

fn floats_of(value: &RedisValueRef) -> Vec<Option<u64>> {
    match value {
        RedisValueRef::Array(parts) => parts
            .iter()
            .map(|p| match p {
                RedisValueRef::BulkString(b) => std::str::from_utf8(b)
                    .ok()
                    .and_then(|s| s.parse::<f64>().ok())
                    .map(f64::to_bits),
                _ => None,
            })
            .collect(),
        _ => Vec::new(),
    }
}

fn run(storage: &mut Storage, now: u128, args: &[&str]) -> CommandReply {
    let value = req(args);
    let floats = floats_of(&value);
    execute(value, storage, now, &floats)
}

fn value(reply: CommandReply) -> RedisValueRef {
    match reply {
        CommandReply::Value(v) => v,
        CommandReply::Score(bits) => panic!("unexpected score {}", f64::from_bits(bits)),
    }
}

fn err(msg: &str) -> RedisValueRef {
    RedisValueRef::ErrorMsg(msg.as_bytes().to_vec())
}

fn bulk(s: &str) -> RedisValueRef {
    RedisValueRef::BulkString(s.as_bytes().to_vec())
}

#[test]
fn ping_answers_pong_in_any_case() {
    let mut s = Storage::new();
    assert_eq!(value(run(&mut s, 0, &["PING"])), RedisValueRef::SimpleString(b"PONG".to_vec()));
    assert_eq!(value(run(&mut s, 0, &["ping"])), RedisValueRef::SimpleString(b"PONG".to_vec()));
}

#[test]
fn echo_returns_its_argument() {
    let mut s = Storage::new();
    assert_eq!(value(run(&mut s, 0, &["ECHO", "hey"])), bulk("hey"));
    assert_eq!(
        value(run(&mut s, 0, &["echo"])),
        err("ERR wrong number of arguments for 'echo' command")
    );
}

#[test]
fn request_shape_errors() {
    let mut s = Storage::new();
    let floats = Vec::new();
    assert_eq!(
        value(execute(RedisValueRef::Int(3), &mut s, 0, &floats)),
        err("ERR expected array command")
    );
    assert_eq!(
        value(execute(RedisValueRef::Array(vec![]), &mut s, 0, &floats)),
        err("ERR missing command")
    );
    assert_eq!(
        value(execute(RedisValueRef::Array(vec![RedisValueRef::Int(1)]), &mut s, 0, &floats)),
        err("ERR missing command")
    );
    assert_eq!(value(run(&mut s, 0, &["FLUSHALL"])), err("ERR unknown command"));
}

#[test]
fn set_then_get() {
    let mut s = Storage::new();
    assert_eq!(value(run(&mut s, 0, &["SET", "k", "v"])), RedisValueRef::SimpleString(b"OK".to_vec()));
    assert_eq!(value(run(&mut s, 5, &["GET", "k"])), bulk("v"));
    assert_eq!(value(run(&mut s, 5, &["set", "k", "w"])), RedisValueRef::SimpleString(b"OK".to_vec()));
    assert_eq!(value(run(&mut s, 5, &["get", "k"])), bulk("w"));
}

#[test]
fn get_missing_key_is_null() {
    let mut s = Storage::new();
    assert_eq!(value(run(&mut s, 0, &["GET", "nope"])), RedisValueRef::NullBulkString);
}

#[test]
fn set_px_expires() {
    let mut s = Storage::new();
    let start: u128 = 1_000;
    assert_eq!(
        value(run(&mut s, start, &["SET", "k", "v", "px", "100"])),
        RedisValueRef::SimpleString(b"OK".to_vec())
    );
    let expiry = start + 100 * 1_000_000;
    assert_eq!(value(run(&mut s, expiry - 1, &["GET", "k"])), bulk("v"));
    assert_eq!(value(run(&mut s, expiry, &["GET", "k"])), RedisValueRef::NullBulkString);
    assert!(s.get(b"k").is_none());
}

#[test]
fn set_option_errors() {
    let mut s = Storage::new();
    assert_eq!(
        value(run(&mut s, 0, &["SET", "k"])),
        err("ERR wrong number of arguments for 'set' command")
    );
    assert_eq!(value(run(&mut s, 0, &["SET", "k", "v", "EX", "10"])), err("ERR syntax error"));
    assert_eq!(
        value(run(&mut s, 0, &["SET", "k", "v", "PX", "0"])),
        err("ERR invalid expire time in 'set' command")
    );
    assert_eq!(
        value(run(&mut s, 0, &["SET", "k", "v", "PX", "-5"])),
        err("ERR invalid expire time in 'set' command")
    );
    assert_eq!(
        value(run(&mut s, 0, &["SET", "k", "v", "PX", "ten"])),
        err("ERR value is not integer or out of range")
    );
    assert_eq!(
        value(run(&mut s, 0, &["SET", "k", "v", "PX", "99999999999999999999"])),
        err("ERR value is not integer or out of range")
    );
    let mut bad = vec![bulk("SET"), RedisValueRef::Int(1), bulk("v")];
    assert_eq!(
        value(execute(RedisValueRef::Array(bad.clone()), &mut s, 0, &vec![None; 3])),
        err("ERR invalid key type")
    );
    bad[1] = bulk("k");
    bad[2] = RedisValueRef::NullBulkString;
    assert_eq!(
        value(execute(RedisValueRef::Array(bad), &mut s, 0, &vec![None; 3])),
        err("ERR invalid value type")
    );
    // nothing was stored by the refused requests
    assert!(s.get(b"k").is_none());
}

#[test]
fn get_on_sorted_set_is_wrongtype() {
    let mut s = Storage::new();
    assert_eq!(value(run(&mut s, 0, &["ZADD", "z", "1", "a"])), RedisValueRef::Int(1));
    assert_eq!(
        value(run(&mut s, 0, &["GET", "z"])),
        err("WRONGTYPE Operation against a key holding wrong type value")
    );
}

#[test]
fn zadd_counts_new_members() {
    let mut s = Storage::new();
    assert_eq!(value(run(&mut s, 0, &["ZADD", "z", "1", "a", "2", "b"])), RedisValueRef::Int(2));
    assert_eq!(value(run(&mut s, 0, &["ZADD", "z", "3", "a", "4", "c"])), RedisValueRef::Int(1));
    assert_eq!(value(run(&mut s, 0, &["ZCARD", "z"])), RedisValueRef::Int(3));
    assert_eq!(value(run(&mut s, 0, &["ZCARD", "missing"])), RedisValueRef::Int(0));
}

#[test]
fn zadd_errors() {
    let mut s = Storage::new();
    assert_eq!(
        value(run(&mut s, 0, &["ZADD", "z", "1"])),
        err("ERR wrong number of arguments for 'zadd' command")
    );
    assert_eq!(
        value(run(&mut s, 0, &["ZADD", "z", "1", "a", "2"])),
        err("ERR wrong number of arguments for 'zadd' command")
    );
    assert_eq!(
        value(run(&mut s, 0, &["ZADD", "z", "x", "a"])),
        err("ERR value is not a valid float")
    );
    assert_eq!(
        value(run(&mut s, 0, &["ZADD", "z", "nan", "a"])),
        err("ERR value is not a valid float")
    );
    // the first bad pair decides, even when a later pair is bad too
    assert_eq!(
        value(run(&mut s, 0, &["ZADD", "z", "1", "a", "oops", "b"])),
        err("ERR value is not a valid float")
    );
    let parts = vec![bulk("ZADD"), bulk("z"), RedisValueRef::Int(1), bulk("a")];
    assert_eq!(
        value(execute(RedisValueRef::Array(parts), &mut s, 0, &vec![None; 4])),
        err("ERR invalid score type")
    );
    let parts = vec![bulk("ZADD"), bulk("z"), bulk("1"), RedisValueRef::Int(1)];
    assert_eq!(
        value(execute(RedisValueRef::Array(parts), &mut s, 0, &vec![None, None, Some(1.0f64.to_bits()), None])),
        err("ERR invalid member type")
    );
    // refused requests created nothing
    assert_eq!(value(run(&mut s, 0, &["ZCARD", "z"])), RedisValueRef::Int(0));
    assert_eq!(value(run(&mut s, 0, &["SET", "str", "v"])), RedisValueRef::SimpleString(b"OK".to_vec()));
    assert_eq!(
        value(run(&mut s, 0, &["ZADD", "str", "1", "a"])),
        err("WRONGTYPE Operation against a key holding wrong type value")
    );
    assert_eq!(value(run(&mut s, 0, &["GET", "str"])), bulk("v"));
}

#[test]
fn zrange_lists_by_score_then_member() {
    let mut s = Storage::new();
    run(&mut s, 0, &["ZADD", "z", "2", "b", "1", "c", "1", "a", "-inf", "low", "+inf", "high"]);
    assert_eq!(
        value(run(&mut s, 0, &["ZRANGE", "z", "0", "-1"])),
        RedisValueRef::Array(vec![bulk("low"), bulk("a"), bulk("c"), bulk("b"), bulk("high")])
    );
    assert_eq!(
        value(run(&mut s, 0, &["ZRANGE", "z", "1", "2"])),
        RedisValueRef::Array(vec![bulk("a"), bulk("c")])
    );
    assert_eq!(
        value(run(&mut s, 0, &["ZRANGE", "z", "-2", "100"])),
        RedisValueRef::Array(vec![bulk("b"), bulk("high")])
    );
    assert_eq!(value(run(&mut s, 0, &["ZRANGE", "z", "3", "1"])), RedisValueRef::Array(vec![]));
    assert_eq!(value(run(&mut s, 0, &["ZRANGE", "z", "9", "10"])), RedisValueRef::Array(vec![]));
    assert_eq!(value(run(&mut s, 0, &["ZRANGE", "none", "0", "-1"])), RedisValueRef::Array(vec![]));
    assert_eq!(
        value(run(&mut s, 0, &["ZRANGE", "z", "a", "1"])),
        err("ERR value is not an integer or out of range")
    );
    assert_eq!(
        value(run(&mut s, 0, &["ZRANGE", "z", "0"])),
        err("ERR wrong number of arguments for 'zrange' command")
    );
}

#[test]
fn zrank_and_zscore() {
    let mut s = Storage::new();
    run(&mut s, 0, &["ZADD", "z", "2.5", "b", "1", "a"]);
    assert_eq!(value(run(&mut s, 0, &["ZRANK", "z", "b"])), RedisValueRef::Int(1));
    assert_eq!(value(run(&mut s, 0, &["ZRANK", "z", "a"])), RedisValueRef::Int(0));
    assert_eq!(value(run(&mut s, 0, &["ZRANK", "z", "x"])), RedisValueRef::NullBulkString);
    assert_eq!(value(run(&mut s, 0, &["ZRANK", "nokey", "x"])), RedisValueRef::NullBulkString);
    match run(&mut s, 0, &["ZSCORE", "z", "b"]) {
        CommandReply::Score(bits) => assert_eq!(f64::from_bits(bits), 2.5),
        other => panic!("{:?}", other),
    }
    assert_eq!(value(run(&mut s, 0, &["ZSCORE", "z", "x"])), RedisValueRef::NullBulkString);
    run(&mut s, 0, &["SET", "str", "v"]);
    assert_eq!(
        value(run(&mut s, 0, &["ZRANK", "str", "a"])),
        err("WRONGTYPE operation against a key holding wrong type value")
    );
    assert_eq!(
        value(run(&mut s, 0, &["ZSCORE", "str", "a"])),
        err("WRONGTYPE operation against a key holding wrong type value")
    );
    assert_eq!(
        value(run(&mut s, 0, &["ZCARD", "str"])),
        err("WRONGTYPE Operation against a key holding wrong type value")
    );
}

#[test]
fn zadd_moves_member_and_keeps_equal_zero() {
    let mut s = Storage::new();
    run(&mut s, 0, &["ZADD", "z", "1", "a", "2", "b"]);
    assert_eq!(value(run(&mut s, 0, &["ZADD", "z", "3", "a"])), RedisValueRef::Int(0));
    assert_eq!(
        value(run(&mut s, 0, &["ZRANGE", "z", "0", "-1"])),
        RedisValueRef::Array(vec![bulk("b"), bulk("a")])
    );
    run(&mut s, 0, &["ZADD", "zero", "0", "m"]);
    run(&mut s, 0, &["ZADD", "zero", "-0", "m"]);
    match run(&mut s, 0, &["ZSCORE", "zero", "m"]) {
        CommandReply::Score(bits) => assert_eq!(bits, 0.0f64.to_bits()),
        other => panic!("{:?}", other),
    }
}

#[test]
fn handle_command_reads_the_clock() {
    let mut s = Storage::new();
    let v = req(&["SET", "k", "v", "PX", "100000"]);
    let floats = floats_of(&v);
    assert!(matches!(handle_command(v, &mut s, &floats), CommandReply::Value(RedisValueRef::SimpleString(_))));
    let v = req(&["GET", "k"]);
    let floats = floats_of(&v);
    assert_eq!(value(handle_command(v, &mut s, &floats)), bulk("v"));
}

#[test]
fn value_entry_expiry() {
    let e = ValueEntry::new(RedisValue::String(b"x".to_vec()), Some(10));
    assert!(!e.is_expired(9));
    assert!(e.is_expired(10));
    let forever = ValueEntry::new(RedisValue::SortedSet(SortedSetData::new()), None);
    assert!(!forever.is_expired(u128::MAX));
}

#[test]
fn storage_insert_get_remove() {
    let mut s = Storage::new();
    s.insert(b"a".to_vec(), ValueEntry::new(RedisValue::String(b"1".to_vec()), None));
    assert!(s.get(b"a").is_some());
    assert!(s.remove(b"a").is_some());
    assert!(s.get(b"a").is_none());
    assert!(s.remove(b"a").is_none());
}

#[test]
fn argument_type_errors() {
    let mut s = Storage::new();
    let none = vec![None; 4];
    let zrange = vec![bulk("ZRANGE"), bulk("z"), RedisValueRef::Int(0), bulk("1")];
    assert_eq!(value(execute(RedisValueRef::Array(zrange), &mut s, 0, &none)), err("ERR invalid argument"));
    let zrank = vec![bulk("ZRANK"), bulk("z"), RedisValueRef::Int(0)];
    assert_eq!(value(execute(RedisValueRef::Array(zrank), &mut s, 0, &none)), err("ERR invalid member type"));
    let zscore = vec![bulk("ZSCORE"), RedisValueRef::NullBulkString, bulk("m")];
    assert_eq!(value(execute(RedisValueRef::Array(zscore), &mut s, 0, &none)), err("ERR invalid key type"));
    let zcard = vec![bulk("ZCARD"), RedisValueRef::Int(0)];
    assert_eq!(value(execute(RedisValueRef::Array(zcard), &mut s, 0, &none)), err("ERR invalid key type"));
    let get = vec![bulk("GET"), RedisValueRef::Int(0)];
    assert_eq!(value(execute(RedisValueRef::Array(get), &mut s, 0, &none)), err("ERR invalid key type"));
    assert_eq!(
        value(run(&mut s, 0, &["GET", "a", "b"])),
        err("ERR wrong number of arguments for 'get' command")
    );
    assert_eq!(
        value(run(&mut s, 0, &["ZCARD"])),
        err("ERR wrong number of arguments for 'zcard' command")
    );
    assert_eq!(
        value(run(&mut s, 0, &["ZRANK", "z"])),
        err("ERR wrong number of arguments for 'zrank' command")
    );
    assert_eq!(
        value(run(&mut s, 0, &["ZSCORE", "z"])),
        err("ERR wrong number of arguments for 'zscore' command")
    );
    assert_eq!(value(run(&mut s, 0, &["SET", "k", "v", "PX"])), err("ERR wrong number of arguments for 'set' command"));
}

#[test]
fn set_then_get_after_other_keys() {
    let mut s = Storage::new();
    run(&mut s, 0, &["SET", "k", "v"]);
    run(&mut s, 1, &["SET", "other", "x"]);
    run(&mut s, 2, &["ZADD", "z", "1", "a"]);
    run(&mut s, 3, &["GET", "other"]);
    assert_eq!(value(run(&mut s, 4, &["GET", "k"])), bulk("v"));
    assert_eq!(value(run(&mut s, 5, &["GET", "k"])), bulk("v"));
}

#[test]
fn set_px_expires_after_other_keys() {
    let mut s = Storage::new();
    run(&mut s, 0, &["SET", "k", "v", "PX", "1"]);
    run(&mut s, 10, &["SET", "other", "x", "px", "5"]);
    run(&mut s, 20, &["ZADD", "z", "1", "a"]);
    assert_eq!(value(run(&mut s, 999_999, &["GET", "k"])), bulk("v"));
    assert_eq!(value(run(&mut s, 1_000_000, &["GET", "k"])), RedisValueRef::NullBulkString);
    assert!(s.get(b"k").is_none());
    assert!(s.get(b"z").is_some());
}

#[test]
fn zadd_on_new_key_counts_distinct_members() {
    let mut s = Storage::new();
    assert_eq!(
        value(run(&mut s, 0, &["ZADD", "z", "1", "a", "2", "b", "3", "a", "4", "c", "5", "b"])),
        RedisValueRef::Int(3)
    );
    run(&mut s, 0, &["SET", "other", "x"]);
    assert_eq!(value(run(&mut s, 0, &["ZCARD", "z"])), RedisValueRef::Int(3));
}

#[test]
fn sorted_sets_stay_nonempty_and_unexpiring() {
    let mut s = Storage::new();
    run(&mut s, 0, &["ZADD", "z", "1", "a"]);
    run(&mut s, 0, &["ZADD", "bad", "1"]);
    assert_eq!(value(run(&mut s, 0, &["ZCARD", "bad"])), RedisValueRef::Int(0));
    assert!(s.get(b"bad").is_none());
    assert_eq!(value(run(&mut s, u128::MAX, &["ZCARD", "z"])), RedisValueRef::Int(1));
}

#[test]
fn reads_of_the_key_keep_its_value() {
    let mut s = Storage::new();
    run(&mut s, 0, &["SET", "k", "v", "PX", "1"]);
    assert_eq!(value(run(&mut s, 10, &["GET", "k"])), bulk("v"));
    run(&mut s, 20, &["ZCARD", "k"]);
    run(&mut s, 30, &["ZRANK", "k", "m"]);
    assert_eq!(value(run(&mut s, 999_999, &["GET", "k"])), bulk("v"));
    assert_eq!(value(run(&mut s, 1_000_000, &["GET", "k"])), RedisValueRef::NullBulkString);
    run(&mut s, 0, &["ZADD", "z", "1", "a", "2", "a"]);
    run(&mut s, 0, &["ZRANGE", "z", "0", "-1"]);
    run(&mut s, 0, &["GET", "z"]);
    assert_eq!(value(run(&mut s, 0, &["ZCARD", "z"])), RedisValueRef::Int(1));
}
