//! Core logic of a minimal TCP broadcast relay.
//!
//! Bytes received from one connected client are fanned out verbatim to every
//! other connected client (or, in the log-only variant, only logged). This
//! crate holds the verified decision logic: the registry of live clients, the
//! per-connection handler state machine, and startup argument handling. The
//! sockets and threads around it live in the accompanying application.

pub mod handler;
pub mod registry;
pub mod startup;
