# resp_kv

A small key-value store that speaks RESP, the Redis wire protocol, verified with Verus.

- `src/resp.rs`: reading RESP values (simple strings, bulk strings, null, arrays) out of a
  byte buffer, and writing them back; `src/roundtrip.rs` proves that what is written
  reads back.
- `src/set.rs`: the options of SET (`NX`, `XX`, `GET`, `EX`, `PX`).
- `src/storage.rs`: the storage and the commands PING, ECHO, GET and SET, with key
  lifetimes; `src/expiry_map.rs` keeps the deadlines.
- `src/server.rs`: answering a request, a RESP array of bulk strings.
- `src/decimal.rs`, `src/text.rs`: decimal numbers as text, UTF-8, lowercasing, joining.
- `app/main.rs`: the TCP server on port 6379 (tokio).

Time is given to the storage as nanoseconds from the UNIX epoch (negative before it);
every function that reads the clock has a twin (`*_at`) that takes the instant as an
argument. Command names and SET options are compared in lowercase; `run_command_at` and
`parse_set_option` take a name that is already lowercase.
