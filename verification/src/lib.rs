//! A UDP hub: datagrams received on any port of a hub are forwarded to every
//! known peer of every port of that hub, except the one that sent them.
//!
//! This crate holds the hub's decisions and bookkeeping, verified: the
//! per-port peer tables and counters, the socket set-up plan derived from a
//! port's configuration, and the text of the statistics reports.
//! Sockets, tasks and channels are driven from outside.

pub mod addr;
pub mod stats;
pub mod lru;
pub mod port;
pub mod config;
pub mod socket_plan;
pub mod text;
pub mod report;
pub mod sender;
