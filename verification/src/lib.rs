//! A safe consumer-side client for a publish/subscribe messaging broker.
//!
//! The crate turns the pointer-based handle protocol of a native client
//! engine into a verified resource-management layer: consumer construction
//! from a configuration, topic subscription, polling for zero-copy message
//! views, and deterministic teardown of both the consumer handle and each
//! received message record.
//!
//! The native engine itself (wire protocol, broker discovery, partition
//! assignment) is outside the verified boundary.  Its observable resource
//! behaviour — handle allocation, record delivery, record release, the
//! teardown call order — is modelled by [`engine::ClientEngine`], and every
//! consumer operation is specified and proved against that model.

pub mod config;
pub mod consumer;
pub mod diag;
pub mod engine;
pub mod errors;
