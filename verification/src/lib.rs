//! Aegis: a local DNS filter. This crate holds the filtering logic: domain
//! normalization, the block and allow lists, the DNS answer cache, the ring of
//! recent blocks, the list parser and the decisions of the daemon.

pub mod text;
pub mod normalize;
pub mod cache;
pub mod clock;
pub mod recent;
pub mod trie;
pub mod normalize_list;
pub mod config;
pub mod metrics;
pub mod paths;
pub mod dns;
pub mod updater;
pub mod control;
pub mod daemon;
pub mod scheduler;
