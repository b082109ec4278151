//! An in-memory, namespaced key-value cache spoken over a length-prefixed
//! big-endian binary wire protocol, together with the client-side
//! connection pool that keeps a fixed number of healthy connections alive.
//!
//! - [`codec`] — the wire layouts: schemas, values, and the encoder and
//!   decoder proved inverse to each other.
//! - [`command`] — the opcodes and what each byte means.
//! - [`protocol`] / [`client`] — how requests and replies are framed, and
//!   the exact bytes a client writes for every command.
//! - [`cache`] — a namespace: one table with the full capability set.
//! - [`server`] — the registry of namespaces and the step a connection's
//!   read loop takes per frame.
//! - [`pool`] — the connection pool's state machine: acquire, release,
//!   probing, scaling, and the rebuild after a fault.
//! - [`file`] — the snapshot layout for whole tables.
//! - [`error`] — every error the system distinguishes.
//!
//! Sockets, files, timers and tasks stay outside the library: whoever runs
//! it feeds bytes and probe outcomes in and carries bytes out.

pub mod cache;
pub mod client;
pub mod codec;
pub mod command;
pub mod error;
pub mod file;
pub mod pool;
pub mod protocol;
pub mod server;
