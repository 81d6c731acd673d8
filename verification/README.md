# reki3

A compact-response BitTorrent tracker backed by Redis sorted sets.

- `src/` is the verified library (Verus):
  - `common` — percent-decoding, lowercase hex, info-hash parsing;
  - `query` — parameter lookup in a raw query string, decimal parsing;
  - `peer` — peer addresses and their compact encoding;
  - `announce` — announce parameters, the Redis commands an announce issues, the bencoded reply;
  - `routing` — path routing and reply bodies of the HTTP handler;
  - `config` — default settings.
- `app/` is the program: command line, logging, the HTTP server, IP address parsing and
  the Redis connection, calling the library for every decision.
- `tests/` exercises the library on concrete values.
