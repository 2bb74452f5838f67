//! Causal-consistency core of a replicated key-value layer: mergeable
//! permission records, per-item causal version sets with opaque causality
//! tokens, poll decisions and waiter registration, and a per-partition index
//! supporting ordered, paged range enumeration.

pub mod api;
pub mod bytes;
pub mod causal;
pub mod crdt;
pub mod index;
pub mod item;
pub mod permission;
pub mod poll;
pub mod store;
pub mod token;
pub mod webhooks;
