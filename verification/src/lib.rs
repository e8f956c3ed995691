//! A lightweight pub/sub data-distribution bus: a broker caches the latest
//! and recent history of typed values per named channel, fans them out to
//! subscribers, and answers synchronous queries; a client library sends
//! values, queries the cache, and manages subscription listeners.
//!
//! This crate holds the verified core: the value model and its wire
//! encoding, the bounded history buffer, the channel store, the log feed,
//! the listener registries, the start/stop lifecycle, and the decision
//! logic of the broker's and the client's loops. Transport and threads
//! live outside, handing these functions plain bytes and values.

pub mod ring_buffer;
pub mod value;
pub mod wire;
pub mod codec;
pub mod messages;
pub mod store;
pub mod log_feed;
pub mod registry;
pub mod lifecycle;
pub mod args;
pub mod broker;
pub mod client;
