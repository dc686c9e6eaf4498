//! Change-notification fan-out: a verified core for routing row-level change
//! events from a database feed to a dynamic set of live subscribers.
//!
//! The crate holds the logic that is worth proving: the JSON wire format of a
//! change event, the feed-reader decisions (discard, continue, terminate), the
//! subscriber registry with its pending/active partition and eviction steps,
//! and a mathematical model of the delivery loop with its guarantees.
//! The surrounding I/O (the database listen connection, the WebSocket
//! transports, the task plumbing) lives outside and hands this crate plain
//! values.

pub mod event;
pub mod feed;
pub mod model;
pub mod router;
pub mod wire;

pub use event::Action;
pub use event::Payload;
