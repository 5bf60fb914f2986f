//! Core data model: members, liveness states and health-check results.

use vstd::prelude::*;

verus! {

/// Liveness state of a member as seen by the local agent.
///
/// `Alive < Suspect < Confirmed < Departed` is the precedence order used
/// when two claims about the same member carry the same incarnation: a
/// claim may only make the picture "worse", never silently resurrect.
#[derive(Clone, Copy, Debug, PartialEq, Eq, Structural)]
pub enum Liveness {
    Alive,
    Suspect,
    Confirmed,
    Departed,
}

impl Liveness {
    /// Precedence rank used to break ties between claims that carry the
    /// same incarnation.
    pub open spec fn rank(self) -> int {
        match self {
            Liveness::Alive => 0,
            Liveness::Suspect => 1,
            Liveness::Confirmed => 2,
            Liveness::Departed => 3,
        }
    }

    /// Executable precedence rank.
    pub fn precedence(self) -> (r: u8)
        ensures
            r as int == self.rank(),
    {
        match self {
            Liveness::Alive => 0,
            Liveness::Suspect => 1,
            Liveness::Confirmed => 2,
            Liveness::Departed => 3,
        }
    }
}

/// Result of a health check run by an external collaborator; the engine
/// only stores the most recent result per service group.
#[derive(Clone, Copy, Debug, PartialEq, Eq, Structural)]
pub enum HealthCheckResult {
    Okay,
    Warning,
    Critical,
    Unknown,
}

impl HealthCheckResult {
    /// HTTP status code the reporting gateway answers with for this result.
    pub open spec fn spec_http_status(self) -> u16 {
        match self {
            HealthCheckResult::Okay => 200u16,
            HealthCheckResult::Warning => 200u16,
            HealthCheckResult::Critical => 503u16,
            HealthCheckResult::Unknown => 500u16,
        }
    }

    /// Status code for the gateway's health endpoint: healthy and warning
    /// answers are OK, a critical check is "service unavailable", and an
    /// unknown result is an internal error.
    pub fn http_status(self) -> (code: u16)
        ensures
            code == self.spec_http_status(),
    {
        match self {
            HealthCheckResult::Okay => 200u16,
            HealthCheckResult::Warning => 200u16,
            HealthCheckResult::Critical => 503u16,
            HealthCheckResult::Unknown => 500u16,
        }
    }
}

/// A cluster member: the unit of the failure detector's bookkeeping.
///
/// `incarnation` is owned exclusively by the member itself; it is bumped
/// by the member to refute a false suspicion, and no peer may fabricate
/// a higher one on the member's behalf.
#[derive(Clone, Copy, Debug, PartialEq, Eq, Structural)]
pub struct Member {
    /// Opaque unique identifier of the member.
    pub id: u64,
    /// IPv4 address, packed big-endian.
    pub address: u32,
    /// Port the failure detector (probe traffic) listens on.
    pub swim_port: u16,
    /// Port the rumor disseminator listens on.
    pub gossip_port: u16,
    /// Self-owned, monotonically increasing refutation counter.
    pub incarnation: u64,
    /// Current liveness as locally known.
    pub liveness: Liveness,
}

} // verus!
