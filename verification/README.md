# tnnl

An HTTP tunnel in one binary: `tnnl server` relays public HTTP traffic by
`Host` header to clients connected over a multiplexed control connection;
`tnnl http <port>` exposes a local port through such a server.

## Layout

- `src/` — the verified library (Verus). Each module states its behaviour in
  `requires`/`ensures` over spec functions and proves it:
  - `text` — byte-level text: `\r\n` lines, ASCII case folding, Unicode
    whitespace trimming of UTF-8, unsigned integer parsing, decimals.
  - `proxy` — HTTP head inspection (`Host`, `Authorization`,
    `Transfer-Encoding`, `Content-Length`, request line, status code) and the
    canned 401/404/502 answers.
  - `body` — chunked decoding, bounded body reads, unchunked response heads.
  - `codec` — base64, HMAC-SHA256 and random values, through the `base64`,
    `hmac`/`sha2` and `rand` crates.
  - `protocol` — control messages, their line framing, the HMAC handshake.
  - `server` — per-address rate limiting and tunnel counts, admission,
    subdomain choice, routing by `Host`.
  - `client` — reconnect backoff, basic auth, body plans, capture and replay.
  - `store` — request ids that stay unique across restarts.
  - `config` — command line over config file over defaults.
  - `log` — what the request log shows.
  - `update` — release-tag comparison.
- `app/` — the program around the library: command line, sockets, yamux,
  files, terminal styling and the release check.
- `tests/` — tests of the library on concrete values.
