//! An in-process publish/subscribe broker.
//!
//! Subscribers register interest in named topics; publishers broadcast a
//! payload to a topic.  A subscriber either receives messages through a
//! caller-supplied callback registration (push delivery) or through a
//! per-subscriber FIFO queue that it polls (pull delivery).

pub mod broker;
pub mod laws;

pub use broker::Broker;
pub use broker::Message;
pub use broker::PushDelivery;
