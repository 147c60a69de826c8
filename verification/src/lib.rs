//! A lightweight publish/subscribe data-distribution layer: large messages
//! are split into fixed-size chunks, broadcast over an unreliable datagram
//! transport, acknowledged through heartbeat-driven reports, and selectively
//! retransmitted until every known subscriber holds the whole message.
pub mod cachepadded;
pub mod codec;
pub mod protocol;
pub mod oncecell;
pub mod publisher;
pub mod sender;
pub mod subscriber;
