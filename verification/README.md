# rust-snell

The Snell proxy protocol, with TLS and HTTP obfuscation, verified with Verus.

- Snell v1 (ChaCha20-Poly1305) and v2 (AES-128-GCM). A server tries AES-128-GCM first and falls back on
  ChaCha20-Poly1305 for the first record alone.
- In v2 one connection serves one request after the other: both sides end a stream with a record without payload.
- Obfuscation as a TLS 1.2 connection or as a WebSocket upgrade over HTTP.
- A SOCKS5 front end for the client, with CONNECT and UDP ASSOCIATE.

## Layout

| Part | What it holds |
|------|---------------|
| `src/aead.rs` | The two cipher suites, key derivation with Argon2id, nonces |
| `src/tls.rs`, `src/http.rs` | The two disguises: hellos, records, upgrade requests and responses |
| `src/obfs.rs`, `src/decode.rs` | The obfuscated stream, and the laws that what is written comes through |
| `src/snell.rs`, `src/records.rs` | The connection: sealed records, and the laws that what is written is read |
| `src/delivery.rs`, `src/arrival.rs` | Reads of any size, and streams that arrive in any pieces |
| `src/handshake.rs` | Requests and responses |
| `src/session.rs`, `src/server.rs`, `src/client.rs`, `src/udp.rs` | The sessions of both sides, as machines without I/O |
| `src/laws.rs` | What holds of the two ends of a connection together |
| `src/socks5.rs`, `src/addr.rs` | The SOCKS5 handshake and its addresses |
| `src/config.rs` | The configuration file and what it starts |
| `src/wire.rs`, `src/text.rs`, `src/entropy.rs` | The library's end of a stream, text, randomness and the clock |
| `app/` | The program: sockets, command line and logging |

The library does no I/O. A `Wire` stands for a TCP stream: bytes that arrive are fed into it, and bytes to be sent are
taken out of it. A call that lacks bytes stops with `IoError::WouldBlock` and goes on from where it was once more bytes
have been fed. Where the stream has ended, such a call fails, and what was left of the stream is lost.
