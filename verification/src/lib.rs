//! Accounting for a bandwidth measurement tool: per-connection meters,
//! per-peer and per-stream totals, and the choice of a display unit.

pub mod elapsed;
pub mod rate;
pub mod meter;
pub mod totals;
pub mod client;
pub mod clients;
pub mod server;
pub mod order;
