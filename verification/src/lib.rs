//! In-memory core of a matchmaking gateway: typed match pools with bounded
//! rooms, a room lifecycle state machine, connection-to-match bindings for
//! broadcast fan-out, and the per-connection protocol dispatch.
//!
//! Everything that mutates pool or connection state is verified here; the
//! transport and the persistence collaborator are driven from an unverified
//! shell that hands this crate plain values.

pub mod config;
pub mod connections;
pub mod error;
pub mod game;
pub mod handler;
pub mod service;
mod random;
