# codecrafters_redis

A small Redis-compatible server whose command layer, keyspace, sorted sets
and RESP framing are written in Verus and proved against their contracts.

## Layout

- `src/text.rs`: byte-string helpers (ASCII case folding, lexicographic
  order, decimal parsing and printing as `str::parse` and `to_string` do it).
- `src/value.rs`: stored values; the sorted set, kept sorted by score (IEEE-754
  total order on the score's bits) and member bytes, with its invariant and
  the laws of ZADD, ZSCORE, ZRANK and ZRANGE.
- `src/types.rs`: the RESP value type and its model.
- `src/store.rs`: the keyspace, a `DashMap` behind trusted wrappers, and the
  clock that expiry times are measured on.
- `src/command.rs`: what each command answers and how it changes the
  keyspace (PING, ECHO, SET [PX], GET, ZADD, ZRANK, ZRANGE, ZCARD, ZSCORE).
- `src/laws.rs`: properties spanning several requests (read after write and
  expiry, also across requests on other keys; refused requests change
  nothing; only writes change the keyspace; every sorted set stays
  non-empty and without expiry; ZADD on a new key then ZCARD counts the
  distinct members).
- `src/resp.rs`: RESP encoding and decoding, proved to read back exactly what
  is written, and to call a buffer incomplete exactly when more bytes could
  still make it a value.
- `src/config.rs`: command-line options, the replication id, and the
  handshake a replica makes with its master.
- `app/main.rs`: sockets, the tokio runtime, the `tokio_util` codec, and the
  floating-point text conversions of scores.

Scores are doubles. The library holds them as bit patterns; reading a score
from text and writing one back as text happen in `app/`.
