//! Server configuration from the command line, the replication id, and the
//! handshake a replica makes with its master.

use vstd::prelude::*;
use vstd::string::{StrSliceExecFns, StringExecFns, StringSliceAdditionalSpecFns};
use vstd::utf8::encode_utf8;
use rand::rngs::ThreadRng;
use rand::RngExt;
use crate::text::{
    bytes_equal, decimal_text, lemma_decimal_text_reads_back, parse_u16, parse_u16_spec,
    signed_decimal,
};
use crate::types::{bulk_request, lemma_array_view, RedisValueRef, Resp};

verus! {

broadcast use vstd::utf8::encode_utf8_decode_utf8;

// ---------------------------------------------------------------------------
// White space
// ---------------------------------------------------------------------------

/// A character with the Unicode `White_Space` property, which is what
/// `char::is_whitespace` tests.
pub open spec fn is_white_space(c: char) -> bool {
    let u = c as u32;
    (0x9 <= u <= 0xd) || u == 0x20 || u == 0x85 || u == 0xa0 || u == 0x1680 || (0x2000 <= u
        <= 0x200a) || u == 0x2028 || u == 0x2029 || u == 0x202f || u == 0x205f || u == 0x3000
}

/// The words of a text: its maximal runs of characters that are not white
/// space, in order.
pub open spec fn whitespace_words(s: Seq<char>) -> Seq<Seq<char>>
    decreases s.len(),
{
    if s.len() == 0 {
        Seq::empty()
    } else {
        let words = whitespace_words(s.drop_last());
        let c = s.last();
        if is_white_space(c) {
            words
        } else if s.len() >= 2 && !is_white_space(s[s.len() - 2]) && words.len() > 0 {
            words.update(words.len() - 1, words.last().push(c))
        } else {
            words.push(seq![c])
        }
    }
}

/// The character sequences of some strings.
pub open spec fn string_views(v: Seq<String>) -> Seq<Seq<char>> {
    Seq::new(v.len(), |i: int| v[i]@)
}

/// `str::split_whitespace`, the pieces collected into strings: the words
/// of `s`, split at white space in the sense of `char::is_whitespace`.
#[verifier::external_body]
fn split_whitespace(s: &str) -> (r: Vec<String>)
    ensures
        string_views(r@) == whitespace_words(s@),
{
    s.split_whitespace().map(String::from).collect()
}

// ---------------------------------------------------------------------------
// Configuration
// ---------------------------------------------------------------------------

/// Whether the server serves on its own or follows a master.
#[derive(Debug)]
pub enum Role {
    Master,
    Replica { host: String, port: u16 },
}

/// The model of a role.
pub enum RoleModel {
    Master,
    Replica { host: Seq<char>, port: u16 },
}

impl View for Role {
    type V = RoleModel;

    open spec fn view(&self) -> RoleModel {
        match self {
            Role::Master => RoleModel::Master,
            Role::Replica { host, port } => RoleModel::Replica { host: host@, port: *port },
        }
    }
}

/// How the server runs.
#[derive(Debug)]
pub struct ServerConfig {
    pub port: u16,
    pub role: Role,
    pub replid: String,
    pub repl_offset: u64,
}

/// What is wrong with the command line.
#[derive(Debug, PartialEq, Eq)]
pub enum ConfigError {
    PortValueMissing,
    PortInvalid,
    ReplicaofValueMissing,
    ReplicaofHostMissing,
    ReplicaofPortMissing,
    ReplicaofPortInvalid,
}

impl ConfigError {
    /// The message the server stops with.
    pub fn message(&self) -> (m: &'static str)
        ensures
            m@ == match self {
                ConfigError::PortValueMissing => "--port requires a value"@,
                ConfigError::PortInvalid => "--port value must be a valid number"@,
                ConfigError::ReplicaofValueMissing => "--replicaof requires a value"@,
                ConfigError::ReplicaofHostMissing => "--replicaof requires host"@,
                ConfigError::ReplicaofPortMissing => "--replicaof requires port"@,
                ConfigError::ReplicaofPortInvalid => "--replicaof port must be a valid number"@,
            },
    {
        match self {
            ConfigError::PortValueMissing => "--port requires a value",
            ConfigError::PortInvalid => "--port value must be a valid number",
            ConfigError::ReplicaofValueMissing => "--replicaof requires a value",
            ConfigError::ReplicaofHostMissing => "--replicaof requires host",
            ConfigError::ReplicaofPortMissing => "--replicaof requires port",
            ConfigError::ReplicaofPortInvalid => "--replicaof port must be a valid number",
        }
    }
}

/// The port the server listens on when none is given.
pub const DEFAULT_PORT: u16 = 6379;

/// The port and role that the arguments from `i` on settle, starting from
/// `port` and `role`: `--port P` sets the port, `--replicaof "HOST P"` makes
/// the server a replica of HOST:P, a later option overrides an earlier one,
/// and other arguments are passed over.
pub open spec fn config_scan(args: Seq<Seq<char>>, i: int, port: u16, role: RoleModel) -> Result<
    (u16, RoleModel),
    ConfigError,
>
    decreases args.len() - i,
{
    if i < 0 || i >= args.len() {
        Ok((port, role))
    } else if args[i] == "--port"@ {
        if i + 1 >= args.len() {
            Err(ConfigError::PortValueMissing)
        } else {
            match parse_u16_spec(encode_utf8(args[i + 1])) {
                Some(p) => config_scan(args, i + 2, p, role),
                None => Err(ConfigError::PortInvalid),
            }
        }
    } else if args[i] == "--replicaof"@ {
        if i + 1 >= args.len() {
            Err(ConfigError::ReplicaofValueMissing)
        } else {
            let words = whitespace_words(args[i + 1]);
            if words.len() == 0 {
                Err(ConfigError::ReplicaofHostMissing)
            } else if words.len() == 1 {
                Err(ConfigError::ReplicaofPortMissing)
            } else {
                match parse_u16_spec(encode_utf8(words[1])) {
                    Some(p) => config_scan(
                        args,
                        i + 2,
                        port,
                        RoleModel::Replica { host: words[0], port: p },
                    ),
                    None => Err(ConfigError::ReplicaofPortInvalid),
                }
            }
        }
    } else {
        config_scan(args, i + 1, port, role)
    }
}

proof fn lemma_scan_suffix(a: Seq<Seq<char>>, b: Seq<Seq<char>>, j: int, port: u16, role: RoleModel)
    requires
        0 <= j,
    ensures
        config_scan(a + b, a.len() + j, port, role) == config_scan(b, j, port, role),
    decreases b.len() - j,
{
    let ab = a + b;
    let k = a.len() + j;
    if j < b.len() {
        assert(ab[k] == b[j]);
        if j + 1 < b.len() {
            assert(ab[k + 1] == b[j + 1]);
        }
        if b[j] == "--port"@ {
            if j + 1 < b.len() {
                if let Some(p) = parse_u16_spec(encode_utf8(b[j + 1])) {
                    lemma_scan_suffix(a, b, j + 2, p, role);
                }
            }
        } else if b[j] == "--replicaof"@ {
            if j + 1 < b.len() {
                let words = whitespace_words(b[j + 1]);
                if words.len() >= 2 {
                    if let Some(p) = parse_u16_spec(encode_utf8(words[1])) {
                        lemma_scan_suffix(
                            a,
                            b,
                            j + 2,
                            port,
                            RoleModel::Replica { host: words[0], port: p },
                        );
                    }
                }
            }
        } else {
            lemma_scan_suffix(a, b, j + 1, port, role);
        }
    }
}

proof fn lemma_scan_prefix(a: Seq<Seq<char>>, b: Seq<Seq<char>>, i: int, port: u16, role: RoleModel)
    requires
        0 <= i <= a.len(),
        config_scan(a, i, port, role) is Ok,
    ensures
        config_scan(a + b, i, port, role) == config_scan(
            b,
            0,
            config_scan(a, i, port, role)->Ok_0.0,
            config_scan(a, i, port, role)->Ok_0.1,
        ),
    decreases a.len() - i,
{
    let ab = a + b;
    if i == a.len() {
        lemma_scan_suffix(a, b, 0, port, role);
    } else {
        assert(ab[i] == a[i]);
        if i + 1 < a.len() {
            assert(ab[i + 1] == a[i + 1]);
        }
        if a[i] == "--port"@ {
            let p = parse_u16_spec(encode_utf8(a[i + 1])).unwrap();
            lemma_scan_prefix(a, b, i + 2, p, role);
        } else if a[i] == "--replicaof"@ {
            let words = whitespace_words(a[i + 1]);
            let p = parse_u16_spec(encode_utf8(words[1])).unwrap();
            lemma_scan_prefix(a, b, i + 2, port, RoleModel::Replica { host: words[0], port: p });
        } else {
            lemma_scan_prefix(a, b, i + 1, port, role);
        }
    }
}

/// Options are read left to right, each from the settings the ones before
/// it left: when the arguments `a` are well formed and settle a port and a
/// role, the arguments `a` followed by `b` settle what `b` settles starting
/// from that port and role.  So a later `--port P` sets the port to `P`
/// whatever came before it, `--replicaof` included, and a later
/// `--replicaof` sets the role whatever came before it.
pub proof fn lemma_options_read_in_order(a: Seq<Seq<char>>, b: Seq<Seq<char>>)
    requires
        config_scan(a, 0, DEFAULT_PORT, RoleModel::Master) is Ok,
    ensures
        ({
            let (port, role) = config_scan(a, 0, DEFAULT_PORT, RoleModel::Master)->Ok_0;
            config_scan(a + b, 0, DEFAULT_PORT, RoleModel::Master) == config_scan(b, 0, port, role)
        }),
{
    lemma_scan_prefix(a, b, 0, DEFAULT_PORT, RoleModel::Master);
}

/// A last `--port P` with a valid port sets the port to `P` and keeps the
/// role that the arguments before it set.
pub proof fn lemma_last_port_wins(a: Seq<Seq<char>>, value: Seq<char>)
    requires
        config_scan(a, 0, DEFAULT_PORT, RoleModel::Master) is Ok,
        parse_u16_spec(encode_utf8(value)) is Some,
    ensures
        config_scan(a + seq!["--port"@, value], 0, DEFAULT_PORT, RoleModel::Master) == Ok::<
            (u16, RoleModel),
            ConfigError,
        >(
            (
                parse_u16_spec(encode_utf8(value)).unwrap(),
                config_scan(a, 0, DEFAULT_PORT, RoleModel::Master)->Ok_0.1,
            ),
        ),
{
    let b = seq!["--port"@, value];
    lemma_options_read_in_order(a, b);
    let (port, role) = config_scan(a, 0, DEFAULT_PORT, RoleModel::Master)->Ok_0;
    let p = parse_u16_spec(encode_utf8(value)).unwrap();
    assert(config_scan(b, 2, p, role) == Ok::<(u16, RoleModel), ConfigError>((p, role)));
}

proof fn lemma_same_bytes_same_text(a: Seq<char>, b: Seq<char>)
    requires
        encode_utf8(a) == encode_utf8(b),
    ensures
        a == b,
{
    assert(vstd::utf8::decode_utf8(encode_utf8(a)) == a);
    assert(vstd::utf8::decode_utf8(encode_utf8(b)) == b);
}

fn is_flag(arg: &String, flag: &str) -> (r: bool)
    ensures
        r == (arg@ == flag@),
{
    let r = bytes_equal(arg.as_str().as_bytes(), flag.as_bytes());
    proof {
        if r {
            lemma_same_bytes_same_text(arg@, flag@);
        }
    }
    r
}

/// The port and role set by the command-line arguments (the program name
/// left out), or what is wrong with them.
pub fn parse_config_args(args: &Vec<String>) -> (r: Result<(u16, Role), ConfigError>)
    ensures
        match r {
            Ok((port, role)) => config_scan(string_views(args@), 0, DEFAULT_PORT, RoleModel::Master)
                == Ok::<(u16, RoleModel), ConfigError>((port, role@)),
            Err(e) => config_scan(string_views(args@), 0, DEFAULT_PORT, RoleModel::Master) == Err::<
                (u16, RoleModel),
                ConfigError,
            >(e),
        },
{
    let ghost a = string_views(args@);
    let mut port: u16 = DEFAULT_PORT;
    let mut role = Role::Master;
    let mut i: usize = 0;
    while i < args.len()
        invariant
            a == string_views(args@),
            i <= args@.len(),
            config_scan(a, 0, DEFAULT_PORT, RoleModel::Master) == config_scan(a, i as int, port, role@),
        decreases args@.len() - i,
    {
        let arg = &args[i];
        if is_flag(arg, "--port") {
            if i + 1 >= args.len() {
                return Err(ConfigError::PortValueMissing);
            }
            let value = &args[i + 1];
            match parse_u16(value.as_str().as_bytes()) {
                Some(p) => {
                    port = p;
                },
                None => return Err(ConfigError::PortInvalid),
            }
            i = i + 2;
        } else if is_flag(arg, "--replicaof") {
            if i + 1 >= args.len() {
                return Err(ConfigError::ReplicaofValueMissing);
            }
            let words = split_whitespace(args[i + 1].as_str());
            if words.len() == 0 {
                return Err(ConfigError::ReplicaofHostMissing);
            }
            if words.len() == 1 {
                return Err(ConfigError::ReplicaofPortMissing);
            }
            match parse_u16(words[1].as_str().as_bytes()) {
                Some(p) => {
                    let host = String::from_str(words[0].as_str());
                    role = Role::Replica { host, port: p };
                },
                None => return Err(ConfigError::ReplicaofPortInvalid),
            }
            i = i + 2;
        } else {
            i = i + 1;
        }
    }
    Ok((port, role))
}

// ---------------------------------------------------------------------------
// Replication id
// ---------------------------------------------------------------------------

#[verifier::external_type_specification]
#[verifier::external_body]
pub struct ExThreadRng(ThreadRng);

/// `rand::rng`: the thread's random number generator.  Nothing is stated of
/// it; it panics if the operating system's random source fails.
#[verifier::external_body]
fn thread_rng() -> ThreadRng {
    rand::rng()
}

/// `RngExt::random_range` over `0..n`: some number below `n`; which one is
/// left to chance.  Like `rand::rng`, it panics if the generator cannot be
/// reseeded from the operating system.
#[verifier::external_body]
fn random_below(rng: &mut ThreadRng, n: usize) -> (r: usize)
    requires
        n > 0,
    ensures
        r < n,
{
    rng.random_range(0..n)
}

/// The characters of a replication id.
pub open spec fn is_lower_hex(c: char) -> bool {
    ('0' <= c <= '9') || ('a' <= c <= 'f')
}

/// The hexadecimal digits, in order of value.
pub open spec fn hex_digits() -> Seq<char> {
    seq!['0', '1', '2', '3', '4', '5', '6', '7', '8', '9', 'a', 'b', 'c', 'd', 'e', 'f']
}

/// The id that a run of digit draws spells: draw `i` (below 16) picks the
/// hexadecimal digit of that value as character `i`.
pub open spec fn replid_of(draws: Seq<usize>) -> Seq<char> {
    Seq::new(draws.len(), |i: int| hex_digits()[draws[i] as int])
}

/// The replication id spelled by `draws`, each a digit value below 16.
pub fn replid_from_draws(draws: &Vec<usize>) -> (id: String)
    requires
        forall|i: int| 0 <= i < draws@.len() ==> draws@[i] < 16,
    ensures
        id@ == replid_of(draws@),
{
    let hex = "0123456789abcdef";
    proof {
        reveal_strlit("0123456789abcdef");
        assert(hex@ =~= hex_digits());
    }
    assert(vstd::string::is_ascii(hex));
    let mut id = String::new();
    let mut n: usize = 0;
    while n < draws.len()
        invariant
            n <= draws@.len(),
            hex@ == hex_digits(),
            vstd::string::is_ascii(hex),
            forall|i: int| 0 <= i < draws@.len() ==> draws@[i] < 16,
            id@ =~= Seq::new(n as nat, |i: int| hex_digits()[draws@[i] as int]),
        decreases draws@.len() - n,
    {
        let k = draws[n];
        let digit = hex.substring_ascii(k, k + 1);
        let ghost before = id@;
        id.append(digit);
        assert(id@ == before + hex@.subrange(k as int, k + 1));
        n = n + 1;
        assert(id@ =~= Seq::new(n as nat, |i: int| hex_digits()[draws@[i] as int]));
    }
    id
}

/// A fresh replication id: 40 random lower-case hexadecimal digits, the
/// id spelled by 40 digit values drawn at random.
pub fn generate_replid() -> (id: String)
    ensures
        id@.len() == 40,
        forall|i: int| 0 <= i < 40 ==> is_lower_hex(#[trigger] id@[i]),
        exists|draws: Seq<usize>|
            draws.len() == 40 && (forall|i: int| 0 <= i < 40 ==> draws[i] < 16) && id@
                == #[trigger] replid_of(draws),
{
    let mut rng = thread_rng();
    let mut draws: Vec<usize> = Vec::new();
    while draws.len() < 40
        invariant
            draws@.len() <= 40,
            forall|i: int| 0 <= i < draws@.len() ==> draws@[i] < 16,
        decreases 40 - draws@.len(),
    {
        let k = random_below(&mut rng, 16);
        draws.push(k);
    }
    let id = replid_from_draws(&draws);
    proof {
        assert forall|i: int| 0 <= i < 40 implies is_lower_hex(#[trigger] id@[i]) by {
            let d = draws@[i] as int;
            assert(0 <= d < 16);
            assert(id@[i] == hex_digits()[d]);
        }
    }
    id
}

/// The configuration from the command-line arguments (the program name
/// left out), with a fresh replication id and offset 0.
pub fn parse_config(args: &Vec<String>) -> (r: Result<ServerConfig, ConfigError>)
    ensures
        match r {
            Ok(c) => {
                &&& config_scan(string_views(args@), 0, DEFAULT_PORT, RoleModel::Master) == Ok::<
                    (u16, RoleModel),
                    ConfigError,
                >((c.port, c.role@))
                &&& c.repl_offset == 0
                &&& c.replid@.len() == 40
                &&& forall|i: int| 0 <= i < 40 ==> is_lower_hex(#[trigger] c.replid@[i])
            },
            Err(e) => config_scan(string_views(args@), 0, DEFAULT_PORT, RoleModel::Master) == Err::<
                (u16, RoleModel),
                ConfigError,
            >(e),
        },
{
    let (port, role) = parse_config_args(args)?;
    Ok(ServerConfig { port, role, replid: generate_replid(), repl_offset: 0 })
}

// ---------------------------------------------------------------------------
// Handshake with the master
// ---------------------------------------------------------------------------

/// The decimal text of a port parses back as that port.
pub proof fn lemma_port_text_parses_back(port: u16)
    ensures
        parse_u16_spec(decimal_text(port as nat)) == Some(port),
{
    lemma_decimal_text_reads_back(port as nat);
    let t = decimal_text(port as nat);
    assert(t[0] != 45 && t[0] != 43) by {
        assert(48 <= t[0] <= 57);
    }
    assert(signed_decimal(t) == Some(port as int));
}

/// The request made of the given arguments.
pub fn resp_command(args: &[&[u8]]) -> (r: RedisValueRef)
    ensures
        r@ == bulk_request(Seq::new(args@.len(), |i: int| args@[i]@)),
{
    let mut items: Vec<RedisValueRef> = Vec::new();
    let mut i: usize = 0;
    while i < args.len()
        invariant
            i <= args@.len(),
            items@.len() == i,
            forall|k: int| 0 <= k < i ==> (#[trigger] items@[k])@ == Resp::Bulk(args@[k]@),
        decreases args@.len() - i,
    {
        proof {
            reveal_with_fuel(<RedisValueRef as View>::view, 1);
        }
        items.push(RedisValueRef::BulkString(vstd::slice::slice_to_vec(args[i])));
        i = i + 1;
    }
    proof {
        lemma_array_view(items);
        let want = bulk_request(Seq::new(args@.len(), |i: int| args@[i]@));
        assert(crate::types::resp_views(items@) =~= want->Array_0);
    }
    RedisValueRef::Array(items)
}

/// The requests a replica sends its master, in order, waiting for a reply
/// after each: PING, REPLCONF listening-port with its own port, REPLCONF
/// capa psync2, and PSYNC ? -1.
pub fn handshake_commands(listening_port: u16) -> (cmds: Vec<RedisValueRef>)
    ensures
        cmds@.len() == 4,
        cmds@[0]@ == bulk_request(seq!["PING".spec_bytes()]),
        cmds@[1]@ == bulk_request(
            seq![
                "REPLCONF".spec_bytes(),
                "listening-port".spec_bytes(),
                decimal_text(listening_port as nat),
            ],
        ),
        cmds@[2]@ == bulk_request(
            seq!["REPLCONF".spec_bytes(), "capa".spec_bytes(), "psync2".spec_bytes()],
        ),
        cmds@[3]@ == bulk_request(seq!["PSYNC".spec_bytes(), "?".spec_bytes(), "-1".spec_bytes()]),
{
    let port_str = crate::text::u64_text(listening_port as u64);
    let mut cmds: Vec<RedisValueRef> = Vec::new();
    let ping_args: [&[u8]; 1] = ["PING".as_bytes()];
    let ping = resp_command(&ping_args);
    assert(Seq::new(1, |i: int| ping_args@[i]@) =~= seq!["PING".spec_bytes()]);
    cmds.push(ping);
    let listening_args: [&[u8]; 3] = [
        "REPLCONF".as_bytes(),
        "listening-port".as_bytes(),
        port_str.as_slice(),
    ];
    let listening = resp_command(&listening_args);
    assert(Seq::new(3, |i: int| listening_args@[i]@) =~= seq![
        "REPLCONF".spec_bytes(),
        "listening-port".spec_bytes(),
        decimal_text(listening_port as nat),
    ]);
    cmds.push(listening);
    let capa_args: [&[u8]; 3] = ["REPLCONF".as_bytes(), "capa".as_bytes(), "psync2".as_bytes()];
    let capa = resp_command(&capa_args);
    assert(Seq::new(3, |i: int| capa_args@[i]@) =~= seq![
        "REPLCONF".spec_bytes(),
        "capa".spec_bytes(),
        "psync2".spec_bytes(),
    ]);
    cmds.push(capa);
    let psync_args: [&[u8]; 3] = ["PSYNC".as_bytes(), "?".as_bytes(), "-1".as_bytes()];
    let psync = resp_command(&psync_args);
    assert(Seq::new(3, |i: int| psync_args@[i]@) =~= seq![
        "PSYNC".spec_bytes(),
        "?".spec_bytes(),
        "-1".spec_bytes(),
    ]);
    cmds.push(psync);
    cmds
}

} // verus!
