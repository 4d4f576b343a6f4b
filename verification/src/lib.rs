//! Core of a live-streaming backend's realtime messaging subsystem:
//! a per-room chat fanout with presence tracking and bounded history
//! replay, and a generic publish/subscribe multiplexer that merges a
//! dynamic set of named channels into one outbound stream.
//!
//! Wire payloads are UTF-8 text frames carrying JSON; they are handled
//! here as byte vectors. The surrounding server (sockets, tasks,
//! persistent accounts) lives outside this crate and drives these
//! registries and session steps.

pub mod chat;
pub mod codec;
pub mod error;
pub mod fanout;
pub mod options;
pub mod pubsub;
pub mod table;
pub mod user;
pub mod webhook;
