# lowprint-tcp-proxy

A TCP-only Trojan-over-TLS server whose protocol logic is a Verus library.

- `src/` — the library, every function with its contract:
  - `config` — `ServerConfig`, its defaults and `validate`;
  - `auth` — the CRLF-terminated authentication line, the hex SHA-224/SHA-256
    password hashes and their constant-time check;
  - `request` — the Trojan CONNECT request (`read_request`), decided from the
    bytes received so far;
  - `handshake` — the session's decisions as a state machine
    (`Handshake::next_action` / `push_bytes`) and the fallback page;
  - `address` — the text an upstream connection is made with (canonical IPv6);
  - `share` — the `trojan://` link for Shadowrocket;
  - `tls` — certificate chain and key from PEM, and the rustls configuration;
  - `text` — whitespace, trimming, decimal text, UTF-8 decoding.
- `app/` — `proxy-server`: command line, TOML loading, the tokio accept loop,
  TLS streams and relaying, driving the library's handshake.
- `tests/` — tests of the library on concrete values.
