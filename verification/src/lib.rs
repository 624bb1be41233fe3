//! Interactive browser for mountable storage: a verified core.
//!
//! The library merges a drive/block inventory with parsed mount-table
//! records into one deterministic, ordered snapshot, and drives the
//! key-based control loop over that snapshot. All I/O — the storage
//! service, the terminal, the mount-table files — stays outside; the
//! library works on plain values.

pub mod config;
pub mod drives;
pub mod mountpoints;
pub mod order;
pub mod strutil;
pub mod tui;
