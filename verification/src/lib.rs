//! A per-user, per-host shell-history recorder.
//!
//! Shell hooks emit "command started" and "command finished" events to a
//! long-running local daemon, which pairs events by session, persists
//! completed entries to a per-host append-only index, and serves queries
//! back to interactive front-ends.
//!
//! This crate holds the daemon's logic: the wire codec for the datagram
//! messages, the session-keyed pairing state machine, the durable
//! pending-session database, the per-host index format, and the query
//! filter. The front-end binary around it supplies the sockets, threads
//! and file handling.

pub mod codec;
pub mod client;
pub mod config;
pub mod db;
pub mod entry;
pub mod filter;
pub mod message;
pub mod order;
pub mod record;
pub mod run;
pub mod server;
pub mod session;
pub mod store;
pub mod text;
pub mod timestamp;
