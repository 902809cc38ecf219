//! A keyed publish/subscribe router for duplex socket connections.
//!
//! The router multiplexes many logical topics over per-connection message
//! streams. Topic keys and payloads are carried as canonical structured text,
//! so arbitrary application key types can share one registry. Subscriptions
//! are gated by a permission pipeline, outbound publishes may be rewritten or
//! vetoed by send mappers, and every connection additionally owns a direct
//! delivery channel addressed by a durable client identity.

use vstd::prelude::*;

pub mod hub;
pub mod identity;
pub mod laws;
pub mod message;
pub mod permission;
pub mod pipeline;
pub mod session;
pub mod wire;

verus! {

/// Links an application message type to the key type that partitions its
/// topic space, and to the application state that owns the router.
///
/// Implement this for every message type that travels through the router.
pub trait SocketMsg {
    type Key;

    type AppState;
}

} // verus!
