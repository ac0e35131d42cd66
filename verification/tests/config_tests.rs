use codecrafters_redis::config::{
    generate_replid, handshake_commands, replid_from_draws, parse_config, parse_config_args, resp_command, ConfigError,
    Role, DEFAULT_PORT,
};
use codecrafters_redis::types::RedisValueRef;

fn args(list: &[&str]) -> Vec<String> {
    list.iter().map(|s| s.to_string()).collect()
}

fn bulk(s: &str) -> RedisValueRef {
    RedisValueRef::BulkString(s.as_bytes().to_vec())
}

#[test]
fn defaults_to_master_on_6379() {
    let (port, role) = parse_config_args(&args(&[])).unwrap();
    assert_eq!(port, DEFAULT_PORT);
    assert!(matches!(role, Role::Master));
}

#[test]
fn port_and_replicaof() {
    let (port, role) =
        parse_config_args(&args(&["--port", "6380", "--replicaof", "  localhost\t6379 "])).unwrap();
    assert_eq!(port, 6380);
    match role {
        Role::Replica { host, port } => {
            assert_eq!(host, "localhost");
            assert_eq!(port, 6379);
        }
        Role::Master => panic!("expected a replica"),
    }
}

#[test]
fn later_port_wins_and_unknown_flags_are_skipped() {
    let (port, _) = parse_config_args(&args(&["--port", "1", "--verbose", "--port", "+2"])).unwrap();
    assert_eq!(port, 2);
}

#[test]
fn config_errors() {
    assert_eq!(parse_config_args(&args(&["--port"])).unwrap_err(), ConfigError::PortValueMissing);
    assert_eq!(parse_config_args(&args(&["--port", "70000"])).unwrap_err(), ConfigError::PortInvalid);
    assert_eq!(parse_config_args(&args(&["--port", "-1"])).unwrap_err(), ConfigError::PortInvalid);
    assert_eq!(
        parse_config_args(&args(&["--replicaof"])).unwrap_err(),
        ConfigError::ReplicaofValueMissing
    );
    assert_eq!(
        parse_config_args(&args(&["--replicaof", "   "])).unwrap_err(),
        ConfigError::ReplicaofHostMissing
    );
    assert_eq!(
        parse_config_args(&args(&["--replicaof", "host"])).unwrap_err(),
        ConfigError::ReplicaofPortMissing
    );
    assert_eq!(
        parse_config_args(&args(&["--replicaof", "host port"])).unwrap_err(),
        ConfigError::ReplicaofPortInvalid
    );
    assert_eq!(ConfigError::PortValueMissing.message(), "--port requires a value");
}

#[test]
fn replid_is_forty_hex_digits() {
    let config = parse_config(&args(&[])).unwrap();
    assert_eq!(config.replid.len(), 40);
    assert!(config.replid.chars().all(|c| c.is_ascii_hexdigit() && !c.is_ascii_uppercase()));
    assert_eq!(config.repl_offset, 0);
    let other = generate_replid();
    assert_eq!(other.len(), 40);
}

#[test]
fn handshake_sequence() {
    let cmds = handshake_commands(6380);
    assert_eq!(
        cmds,
        vec![
            RedisValueRef::Array(vec![bulk("PING")]),
            RedisValueRef::Array(vec![bulk("REPLCONF"), bulk("listening-port"), bulk("6380")]),
            RedisValueRef::Array(vec![bulk("REPLCONF"), bulk("capa"), bulk("psync2")]),
            RedisValueRef::Array(vec![bulk("PSYNC"), bulk("?"), bulk("-1")]),
        ]
    );
    assert_eq!(
        handshake_commands(0)[1],
        RedisValueRef::Array(vec![bulk("REPLCONF"), bulk("listening-port"), bulk("0")])
    );
    assert_eq!(resp_command(&[b"A", b"bc"]), RedisValueRef::Array(vec![bulk("A"), bulk("bc")]));
}

#[test]
fn replid_spells_the_draws() {
    let mut draws: Vec<usize> = (0..16).collect();
    draws.extend((0..16).rev());
    draws.extend([10, 11, 12, 13, 14, 15, 0, 9]);
    assert_eq!(
        replid_from_draws(&draws),
        "0123456789abcdeffedcba9876543210abcdef09"
    );
    assert_eq!(replid_from_draws(&Vec::new()), "");
}
