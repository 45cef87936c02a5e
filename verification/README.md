# iox2redis_json

A small Redis-like key-value store with JSON values, reached through a
compact binary frame protocol (`IX2R`, version 1), written in Verus: the
store, the frame codec, the dump format, glob matching, the write-once
`const:` namespace, the server's routing and the client's reading of
responses are verified against contracts stated over mathematical models.

Layout:

- `src/codec.rs` — frames and values on the wire; encode/decode with
  round-trip laws.
- `src/commands.rs` — what each command does to a store's map and answers.
- `src/store.rs` — `JsonStore` (the in-memory store) and `ConstJsonStore`
  (the write-once store).
- `src/server.rs` — configuration, the published description, and
  `Iox2JsonServer`, which routes commands between both stores.
- `src/laws.rs` — properties that span commands: reading back writes,
  expiry, deletion, dump/load, constants surviving every command.
- `src/dump.rs`, `src/glob.rs`, `src/ttl.rs`, `src/size.rs`, `src/table.rs`,
  `src/item.rs`, `src/json.rs`, `src/text.rs`, `src/transport.rs`,
  `src/clock.rs` — the parts these rest on.
- `src/client.rs` — response values as a client sees them, and a client over
  a transport of the caller's choosing.
- `src/command_line.rs` — the requests the command-line client builds.
- `app/main.rs` — the command-line server (hex frames on stdin/stdout) and
  client.

The store keeps time as nanoseconds on its own monotonic clock; every
command has a variant taking the time explicitly (`handle_at`,
`handle_payload_at`), which is what the contracts speak of.
