//! DNS: messages, cache and resolver.

pub mod answer;
pub mod cache;
pub mod lookup;
pub mod message;
pub mod order;
pub mod resolver;
pub mod rule_text;
pub mod wire;
