//! A publish-subscribe registry: subscribers register for topics, published
//! messages are handed to the channel of every subscriber of the topic, and a
//! subscriber receives its messages in the order in which they were sent.
//!
//! The topic table lives in a `dashmap::DashMap` and each subscriber owns an
//! unbounded `async_channel` channel; both are reached through the trusted
//! items of `table` and `channel`.

mod error;
mod payload;
mod topic;
mod table;
mod channel;
pub mod model;
mod pubsub;
pub mod laws;

pub use error::PubsubError;
pub use payload::Payload;
pub use topic::PubsubTopic;
pub use channel::{ChannelCall, ChannelLog, Inbox, Outbox, Received, SendEnd};
pub use pubsub::{Handout, Pubsub, Subscriber, Subscriptions, sent_to};
pub use table::{TopicLists, TopicTable, topic_lists};
