//! Verified core of a path-aware DNS forwarder.

pub mod app_state;
pub mod arena;
pub mod clock;
pub mod config;
pub mod dns;
pub mod domain;
pub mod edns;
pub mod exchange;
pub mod geosite;
pub mod iprange;
pub mod lines;
pub mod outside;
pub mod persist;
pub mod querylog;
pub mod reload;
pub mod resolver;
pub mod response_filter;
pub mod route_index;
pub mod route_table;
pub mod router;
pub mod ruleset;
pub mod server;
pub mod singleflight;
pub mod small;
pub mod stats;
pub mod sys;
pub mod table;
pub mod tag_ids;
pub mod tag_memo;
pub mod text;
pub mod udp_recv;
pub mod udp_send;
pub mod udp_uring;
pub mod upstream;
pub mod verdict_cache;
