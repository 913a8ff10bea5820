//! A window-pool broker: a controlling process drives a bounded set of
//! long-lived browser-window workers over one ordered byte stream.
//!
//! The crate holds the message types and their delimited wire codec, the
//! correlation of concurrent calls by message identifier, the pool manager
//! with its FIFO wait queue, and the bridge that turns asynchronous engine
//! notifications into deferred protocol responses.

pub mod client;
pub mod codec;
pub mod messages;
pub mod pool;
