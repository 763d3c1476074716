# aegis

A local DNS filter: a DNS53 proxy that answers blocked names with NXDOMAIN,
serves the rest from a cache or an upstream server, and keeps its block lists
up to date. The filtering logic is a library verified with Verus; the daemon
and its control client are ordinary Rust around it.

- `src/` — the verified library:
  - `normalize`, `normalize_list`: domain normalization and the list parser
    (hosts files, plain domain lists, simple Adblock rules);
  - `trie`: the blocklist (an FST and its file format) and the allowlist;
  - `cache`: the answer cache, bounded by entries and by bytes;
  - `recent`: the fixed ring of recent blocks;
  - `dns`: the proxy's decisions (allow, block, cache, upstream);
  - `updater`: the decisions of a list update and its guards;
  - `control`: the control protocol's decisions;
  - `config`, `metrics`, `paths`, `daemon`, `scheduler`: configuration,
    counters, file layout, start-up and update timing.
- `app/`: the `aegisd` daemon and the `aegis-ctl` client (sockets, files,
  HTTP, SQLite, TOML and JSON).
- `tests/`: tests of the library.
