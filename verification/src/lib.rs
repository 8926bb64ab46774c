//! A verified core of a router-oriented DNS server: wire encodings, rule
//! lookups, response handling and cache policy.

pub mod octets;
pub mod bench;
pub mod text;
pub mod net;
pub mod netlink;
pub mod tcp_syn;
pub mod message;
pub mod dname;
pub mod txt;
pub mod codec;
pub mod clock;
pub mod response;
pub mod dns_error;
pub mod cache;
pub mod ns_select;
pub mod config;
pub mod dns_rule;
pub mod context;
pub mod stats;
pub mod net_sets;
pub mod dualstack;
pub mod doh;
pub mod client_rule;
pub mod client_mac;
pub mod decode;
pub mod persist;
pub mod syslog;
pub mod udp;
pub mod request;
pub mod prefetch;
pub mod ip_text;
pub mod odhcpd;
pub mod audit;
pub mod reply;
pub mod ddr;
pub mod tls_pin;
pub mod query_limit;
pub mod plugins;
pub mod certificate;
pub mod updater;
