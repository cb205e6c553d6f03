//! Client-side control layer of a secure group-messaging application.
//!
//! The crate has two halves: a persistent key/credential store with
//! round-trip-faithful text serialization and optional password-derived
//! encryption at rest, and a per-user session orchestrator that tracks
//! contacts, keeps one session per group, routes inbound protocol
//! messages, and drives membership changes in delivery-before-merge order.
//! The cryptographic protocol engine and the network transport are outside
//! collaborators, reached only through narrow trusted wrappers.

pub mod codec;
pub mod conversation;
pub mod engine;
pub mod persistent_key_store;
pub mod user;
