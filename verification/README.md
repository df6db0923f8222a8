# mirage

A proxy that hides among ordinary TLS traffic. This crate holds its logic as a Verus library: each
executable function carries a contract, and Verus proves it. Only the function that reads the clock has
none, since a clock may say anything.

## Layout

- `src/` is the verified library. It opens no socket and reads no file or environment variable; where
  work outside alternates with decisions, a state machine says what to do next and is told what happened.
  - Text, bytes and addresses: `text`, `wire`, `seqs`, `table`, `ip`, `ip_laws`, `address`, `net_util`, `b64`, `calendar`,
    `chance`.
  - Outbounds: `pool` (tunnels kept ready), `outbound` and `manager` (servers and groups of them),
    `healthcheck`, `probe`, `resolver`, `stream`, `brutal`.
  - Inbounds: `socks5`, `mixed`, `handler`, `session`, `ss_inbound`, `sniff`, `transparent`, `tls_capture`,
    `proc_lookup`.
  - Datagrams: `frames`, `udp_relay`, `udp_mux`, `transparent_udp`.
  - The server: `entry`, `server`, `camouflage`, `upstream`, `user_limits`, `rate_limit`.
  - Other protocols: `shadowsocks`, `wg`, `wg_dns`, `wg_device`, `wg_pump`, `quic`, `quic_obfs`, `splice`.
  - Links and logs: `node_uri`, `cache`, `monitor`, `net_monitor`.
- `tests/` runs the library with the outside crates linked.
- `app/` is ordinary Rust around the library: sockets, files, clocks and tasks. Encryption of the tunnels,
  routing rules and configuration files come from the embedding program through the traits in `app/channel.rs`.

## What is stated

Contracts speak of mathematical models: sequences of bytes and characters, maps, and a view of each type.
Proof functions named `law_*` state what holds across calls, such as that a sealed packet opens to what was
sealed, that a stranger is never served, or that a frame is read back as it was written. Calls into outside
crates stand behind functions marked `external_body`; the comment above each says what is claimed of it.
