//! Rumors: the unit of gossip.
//!
//! Each rumor belongs to a stream, identified by its kind and a key
//! within the kind (a member id or a service group id). Rumors of the
//! same stream are totally ordered by their version stamp, and the rumor
//! store keeps only the maximum.

use vstd::prelude::*;
use crate::types::Member;

verus! {

/// Logical version stamp ordering the rumors of one stream.
///
/// Stamps compare lexicographically: `epoch` first (an incarnation, an
/// election term, or an update counter), then `seq` to order refinements
/// within the same epoch (for membership rumors, the liveness precedence
/// rank, so that a Suspect claim outranks an Alive claim of the same
/// incarnation).
#[derive(Clone, Copy, Debug, PartialEq, Eq, Structural)]
pub struct VersionStamp {
    pub epoch: u64,
    pub seq: u64,
}

/// `a` is at most `b` in the total stamp order.
pub open spec fn stamp_le(a: VersionStamp, b: VersionStamp) -> bool {
    a.epoch < b.epoch || (a.epoch == b.epoch && a.seq <= b.seq)
}

/// Executable mirror of `stamp_le`.
pub fn stamp_le_exec(a: VersionStamp, b: VersionStamp) -> (r: bool)
    ensures
        r == stamp_le(a, b),
{
    a.epoch < b.epoch || (a.epoch == b.epoch && a.seq <= b.seq)
}

/// The fact a rumor carries, one variant per rumor kind.
#[derive(Clone, Debug, PartialEq, Eq)]
pub enum RumorBody {
    /// A liveness claim about a member; the stream key is the member id.
    Membership { member: Member },
    /// The latest service fact for a group (opaque rendered
    /// configuration bytes); the stream key is the group id.
    Service { group: u64, originator: u64, config: Vec<u8> },
    /// An announced election outcome for a group; the stream key is the
    /// group id.
    Election { group: u64, term: u64, winner: u64, suitability: u64 },
    /// A graceful self-announced departure; the stream key is the
    /// member id.
    Departure { member_id: u64, incarnation: u64 },
    /// A file distributed to a group; the stream key is the group id.
    ServiceFile { group: u64, contents: Vec<u8> },
}

/// A versioned fact disseminated by gossip; highest stamp wins.
#[derive(Clone, Debug, PartialEq, Eq)]
pub struct Rumor {
    pub stamp: VersionStamp,
    pub body: RumorBody,
}

/// Stream identity: the kind (in the upper half) and the key within the
/// kind (in the lower half). Distinct kinds can never collide because
/// the key part is below `2^64`.
pub open spec fn spec_stream_key(r: Rumor) -> u128 {
    match r.body {
        RumorBody::Membership { member } => member.id as u128,
        RumorBody::Service { group, .. } => (0x1_0000_0000_0000_0000u128 + group as u128) as u128,
        RumorBody::Election { group, .. } => (0x2_0000_0000_0000_0000u128 + group as u128) as u128,
        RumorBody::Departure { member_id, .. } => (0x3_0000_0000_0000_0000u128 + member_id as u128) as u128,
        RumorBody::ServiceFile { group, .. } => (0x4_0000_0000_0000_0000u128 + group as u128) as u128,
    }
}

impl Rumor {
    /// Executable stream identity.
    pub fn stream_key(&self) -> (k: u128)
        ensures
            k == spec_stream_key(*self),
    {
        match &self.body {
            RumorBody::Membership { member } => member.id as u128,
            RumorBody::Service { group, .. } => 0x1_0000_0000_0000_0000u128 + *group as u128,
            RumorBody::Election { group, .. } => 0x2_0000_0000_0000_0000u128 + *group as u128,
            RumorBody::Departure { member_id, .. } => 0x3_0000_0000_0000_0000u128 + *member_id
                as u128,
            RumorBody::ServiceFile { group, .. } => 0x4_0000_0000_0000_0000u128 + *group as u128,
        }
    }
}

/// A membership rumor announcing the given member record. Its stamp is
/// the member's incarnation refined by the liveness precedence rank, so
/// that within one incarnation a worse claim replaces a better one and
/// never the other way around.
pub fn membership_rumor(member: Member) -> (r: Rumor)
    ensures
        r.body == (RumorBody::Membership { member }),
        r.stamp.epoch == member.incarnation,
        r.stamp.seq == member.liveness.rank(),
{
    let seq = member.liveness.precedence() as u64;
    Rumor { stamp: VersionStamp { epoch: member.incarnation, seq }, body: RumorBody::Membership {
        member,
    } }
}

} // verus!
