//! Decentralized membership, gossip and leader-election engine.
//!
//! A set of autonomous agents (one per host) agrees, without a central
//! coordinator, on which peers are alive, which peer leads each service
//! group, and what configuration and health facts currently hold. The
//! engine combines a failure detector, an epidemic rumor disseminator
//! and a per-group election state machine; all conflict resolution goes
//! through a single max-by-version merge rule, which makes rumor
//! application idempotent and commutative.

pub mod codec;
pub mod detector;
pub mod election;
pub mod gateway;
pub mod json;
pub mod member;
pub mod rumor;
pub mod server;
pub mod store;
pub mod types;

use vstd::prelude::*;

verus! {

/// Outcome of starting the reporting gateway's listener, handed back to
/// the thread that asked for it to be spawned.
#[derive(Debug, PartialEq, Eq, Structural)]
pub enum ServerStartup {
    NotStarted,
    Started,
    BindFailed,
}

} // verus!
