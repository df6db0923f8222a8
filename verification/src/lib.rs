//! Verified core of a censorship-resistant proxy: wire formats, address and URI grammars,
//! outbound selection, quota accounting, connection tables and handshake decisions.

pub mod address;
pub mod b64;
pub mod brutal;
pub mod cache;
pub mod calendar;
pub mod camouflage;
pub mod chance;
pub mod entry;
pub mod frames;
pub mod handler;
pub mod healthcheck;
pub mod ip;
pub mod ip_laws;
pub mod manager;
pub mod mixed;
pub mod monitor;
pub mod net_monitor;
pub mod net_util;
pub mod node_uri;
pub mod outbound;
pub mod pool;
pub mod probe;
pub mod proc_lookup;
pub mod quic;
pub mod quic_obfs;
pub mod rate_limit;
pub mod resolver;
pub mod seqs;
pub mod server;
pub mod session;
pub mod shadowsocks;
pub mod sniff;
pub mod socks5;
pub mod splice;
pub mod ss_inbound;
pub mod stream;
pub mod table;
pub mod text;
pub mod tls_capture;
pub mod transparent;
pub mod transparent_udp;
pub mod udp_mux;
pub mod udp_relay;
pub mod upstream;
pub mod user_limits;
pub mod wg;
pub mod wg_device;
pub mod wg_dns;
pub mod wg_pump;
pub mod wire;
