# udphub

A UDP hub: every datagram received on any port of a hub is sent on to every
known peer of every port of that hub, except the peer that sent it. A port
knows two kinds of peers: permanent ones, listed in its configuration
(`sendto`), and discovered ones, remembered from the datagrams they send
(up to `last_n` of them, optionally forgotten after `forget_ms`).

Layout:

- `src/` — the verified library (Verus):
  - `addr.rs` — socket addresses as plain integer keys, and their order;
  - `stats.rs` — port and peer counters, the receive-rate window;
  - `lru.rs` — the `lru_time_cache` cache of discovered peers, behind
    trusted wrappers;
  - `port.rs` — a port's bookkeeping: counting datagrams, choosing where to
    forward them, counting sends, answering statistics requests;
  - `config.rs` — a port's configuration, the hub queue length;
  - `socket_plan.rs` — the steps that set up a port's socket;
  - `sender.rs` — the periodic sender and its base64 datagram;
  - `text.rs`, `report.rs` — the short and long statistics texts.
- `app/` — the application around it: JSON configuration, sockets, the tokio
  tasks of the ports, the statistics service and the JNI entry points.
- `tests/` — tests of the library.
