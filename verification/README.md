# mini_redis

The core of a small Redis-compatible server, verified with Verus.

- `src/frame.rs`: RESP frames, their model, their encoding (`serialize`) and
  the streaming parser (`parse_bytes`, `parse_frame`).
- `src/frame_laws.rs`: what the parser reads back of what the encoder writes,
  and how a parse behaves as more bytes arrive.
- `src/command.rs`: decoding commands (PING, ECHO, GET, SET, DEL, EXISTS) from
  frames and running them; `src/command_laws.rs`: laws of running them.
- `src/db.rs`: the key-value store.
- `src/server.rs`: how a connection answers the frames it holds and when it
  gives up; `src/server_laws.rs`: every frame answered once and in order,
  however the bytes were split into reads.
- `src/text.rs`, `src/buffer.rs`: decimal and UTF-8 conversions, and the
  `bytes::BytesMut` buffer, with their contracts.
- `app/main.rs`: the Tokio TCP server around the library.
