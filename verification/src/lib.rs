//! A stateful WebSocket fan-out gateway core: the dispatch and subscription
//! engine that maps users, games, page sessions and server-sent channels to
//! live socket senders, the codecs for the backend line protocol and the
//! browser JSON protocol, and the synchronous chess-analysis responder.
//!
//! The crate holds only the gateway's logic: handlers are pure state
//! transitions that return the sends, closes and publishes to perform, so a
//! thin driver around it can do the actual socket and bus I/O.
pub mod analysis;
pub mod browser;
pub mod cache;
pub mod chess;
pub mod dispatch;
pub mod handshake;
pub mod ipc;
pub mod json;
pub mod limiter;
pub mod model;
pub mod text;
