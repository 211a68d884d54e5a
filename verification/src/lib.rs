//! Traffic of devices behind a proxy, and of the servers that they go out through.
//!
//! A device counts what its proxied connections have moved (`tracker`), keeps it until it is
//! reported (`pending`, `reporter`), and takes its nodes and the configuration of its proxy from
//! `nodes` and `outbound`; `service` says which commands may manage the proxy. A dashboard checks
//! reports (`auth`, `report`), takes each one in once (`apply`, `history`, `server`) and shows
//! what it knows (`dashboard`, `quota`, `access_log`). A server analyzes the log and the sockets
//! of its proxy (`analyzer`, `vps`). `classify`, `hosts` and `ip` tell traffic that should have
//! gone direct from traffic that belongs to the proxy.
//!
//! Contracts speak of texts as sequences of characters, of maps as mathematical maps, and of
//! numbers as integers: a function that adds says in its `requires` that the sums are `i64`, and
//! one beside it tests that first.

pub mod access_log;
pub mod analyzer;
pub mod apply;
pub mod auth;
pub mod classify;
pub mod cli;
pub mod clock;
pub mod dashboard;
pub mod foreign;
pub mod history;
pub mod hosts;
pub mod ip;
pub mod json;
pub mod nodes;
pub mod order;
pub mod outbound;
pub mod pattern;
pub mod pending;
pub mod quota;
pub mod report;
pub mod reporter;
pub mod server;
pub mod service;
pub mod text;
pub mod text_map;
pub mod tracker;
pub mod vps;
