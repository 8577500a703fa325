//! A verified core for a websocket login server.
//!
//! The server accepts connections, upgrades them to a framed message
//! channel, and answers each binary frame that decodes to a login request
//! with an encoded login response. This crate holds the verified logic of
//! that exchange: the wire codec for the message envelope and the
//! per-frame dispatch. The listening socket, the thread per connection and
//! the websocket handshake live outside, in unverified glue that feeds
//! frames in and writes the returned bytes back.

pub mod codec;
pub mod envelope;
pub mod handler;
