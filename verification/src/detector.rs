//! The failure detector: suspicion bookkeeping and probe scheduling.
//!
//! Direct and indirect probing happen at the transport edge; this module
//! owns the decisions: which peer to probe next, which peers to ask for
//! an indirect probe, and — the safety-critical part — when a Suspect
//! member may be Confirmed dead. A suspicion records the incarnation the
//! member was suspected at; expiry confirms only if the member is still
//! Suspect at that same incarnation, so a refutation (the member
//! gossiping a higher incarnation) always wins the race against the
//! timer. Confirmation by timer expiry is the only way a peer is ever
//! marked dead.

use vstd::prelude::*;
use crate::member::{accepts_claim, MemberList};
use crate::types::{Liveness, Member};

verus! {

/// A pending suspicion cycle for one member.
#[derive(Clone, Copy, Debug, PartialEq, Eq, Structural)]
pub struct Suspicion {
    pub member_id: u64,
    /// The incarnation the member was suspected at; a refutation bumps
    /// the member past it.
    pub incarnation: u64,
    /// Tick at which the suspicion expires.
    pub deadline: u64,
}

/// Whether an expired suspicion may confirm the member dead: only if
/// the entry is still Suspect at the incarnation it was suspected at.
pub open spec fn confirms(entry: Option<Member>, s: Suspicion) -> bool {
    match entry {
        Option::Some(m) => m.liveness == Liveness::Suspect && m.incarnation == s.incarnation,
        Option::None => false,
    }
}

/// There is a suspicion for `id` in `sus` that is due at `now` and, at
/// the given membership entry, still confirms.
pub open spec fn due_confirmation(
    sus: Seq<Suspicion>,
    entry: Option<Member>,
    now: u64,
    id: u64,
) -> bool {
    exists|t: int|
        {
            &&& 0 <= t < sus.len()
            &&& (#[trigger] sus[t]).member_id == id
            &&& sus[t].deadline <= now
            &&& confirms(entry, sus[t])
        }
}

/// Suspicion timers and the probe rotation cursor.
pub struct FailureDetector {
    suspicions: Vec<Suspicion>,
    cursor: u64,
}

impl FailureDetector {
    /// The pending suspicions, at most one per member.
    pub closed spec fn suspicions(&self) -> Seq<Suspicion> {
        self.suspicions@
    }

    pub closed spec fn wf(&self) -> bool {
        forall|i: int, j: int|
            0 <= i < self.suspicions@.len() && 0 <= j < self.suspicions@.len() && i != j ==> (
            #[trigger] self.suspicions@[i]).member_id != (#[trigger] self.suspicions@[j]).member_id
    }

    pub fn new() -> (r: FailureDetector)
        ensures
            r.wf(),
            r.suspicions() == Seq::<Suspicion>::empty(),
    {
        FailureDetector { suspicions: Vec::new(), cursor: 0 }
    }

    /// Starts a suspicion cycle unless one is already pending for the
    /// member: a second timeout during an open cycle never shortens or
    /// restamps the first.
    pub fn suspect(&mut self, member_id: u64, incarnation: u64, deadline: u64) -> (started: bool)
        requires
            old(self).wf(),
        ensures
            final(self).wf(),
            started == !(exists|i: int|
                0 <= i < old(self).suspicions().len() && (#[trigger] old(self).suspicions()[
                    i
                ]).member_id == member_id),
            started ==> final(self).suspicions() == old(self).suspicions().push(
                Suspicion { member_id, incarnation, deadline },
            ),
            !started ==> final(self).suspicions() == old(self).suspicions(),
    {
        let mut i: usize = 0;
        while i < self.suspicions.len()
            invariant
                *self == *old(self),
                self.wf(),
                0 <= i <= self.suspicions@.len(),
                forall|t: int|
                    0 <= t < i ==> (#[trigger] self.suspicions@[t]).member_id != member_id,
            decreases self.suspicions@.len() - i,
        {
            let here = self.suspicions[i];
            if here.member_id == member_id {
                proof {
                    assert(old(self).suspicions()[i as int].member_id == member_id);
                }
                return false;
            }
            i += 1;
        }
        let ghost prevs = self.suspicions@;
        self.suspicions.push(Suspicion { member_id, incarnation, deadline });
        proof {
            assert forall|a: int, b: int|
                0 <= a < self.suspicions@.len() && 0 <= b < self.suspicions@.len() && a
                    != b implies (#[trigger] self.suspicions@[a]).member_id != (
            #[trigger] self.suspicions@[b]).member_id by {
                if a == prevs.len() as int {
                    assert(prevs[b].member_id != member_id);
                } else if b == prevs.len() as int {
                    assert(prevs[a].member_id != member_id);
                }
            }
        }
        true
    }

    /// Closes every suspicion whose deadline has passed and returns the
    /// ids that are to be Confirmed dead: exactly those whose member is
    /// still Suspect at the suspected incarnation. A member that refuted
    /// in time (so `confirms` no longer holds) has its cycle dropped
    /// without any confirmation.
    #[verifier::loop_isolation(false)]
    pub fn expire_due(&mut self, now: u64, members: &MemberList) -> (confirmed: Vec<u64>)
        requires
            old(self).wf(),
        ensures
            final(self).wf(),
            forall|s: Suspicion|
                #[trigger] final(self).suspicions().contains(s) <==> (old(
                    self,
                ).suspicions().contains(s) && s.deadline > now),
            forall|i: int|
                0 <= i < confirmed@.len() ==> due_confirmation(
                    old(self).suspicions(),
                    members.spec_get(#[trigger] confirmed@[i]),
                    now,
                    confirmed@[i],
                ),
            forall|s: Suspicion|
                #[trigger] old(self).suspicions().contains(s) && s.deadline <= now && confirms(
                    members.spec_get(s.member_id),
                    s,
                ) ==> confirmed@.contains(s.member_id),
    {
        let ghost prev = self.suspicions@;
        let mut keep: Vec<Suspicion> = Vec::new();
        let mut confirmed: Vec<u64> = Vec::new();
        let mut i: usize = 0;
        while i < self.suspicions.len()
            invariant
                *self == *old(self),
                prev == self.suspicions@,
                self.wf(),
                0 <= i <= prev.len(),
                forall|s: Suspicion|
                    #[trigger] keep@.contains(s) <==> (exists|t: int|
                        0 <= t < i && prev[t] == s) && s.deadline > now,
                forall|j: int|
                    0 <= j < confirmed@.len() ==> due_confirmation(
                        old(self).suspicions(),
                        members.spec_get(#[trigger] confirmed@[j]),
                        now,
                        confirmed@[j],
                    ),
                forall|t: int|
                    0 <= t < i && (#[trigger] prev[t]).deadline <= now && confirms(
                        members.spec_get(prev[t].member_id),
                        prev[t],
                    ) ==> confirmed@.contains(prev[t].member_id),
                forall|s: Suspicion, t: int|
                    #[trigger] keep@.contains(s) && i <= t < prev.len() ==> s.member_id != (
                    #[trigger] prev[t]).member_id,
                forall|a: int, b: int|
                    0 <= a < keep@.len() && 0 <= b < keep@.len() && a != b ==> (
                    #[trigger] keep@[a]).member_id != (#[trigger] keep@[b]).member_id,
            decreases prev.len() - i,
        {
            let s = self.suspicions[i];
            proof {
                assert(prev.contains(s));
                assert(old(self).suspicions().contains(s));
            }
            if s.deadline <= now {
                let entry = members.get(s.member_id);
                let hit = match entry {
                    Option::Some(m) => m.liveness == Liveness::Suspect && m.incarnation
                        == s.incarnation,
                    Option::None => false,
                };
                if hit {
                    let ghost prev_confirmed = confirmed@;
                    confirmed.push(s.member_id);
                    proof {
                        assert(old(self).suspicions()[i as int] == s);
                        assert(due_confirmation(
                            old(self).suspicions(),
                            members.spec_get(s.member_id),
                            now,
                            s.member_id,
                        ));
                        assert forall|t: int|
                            0 <= t < i + 1 && (#[trigger] prev[t]).deadline <= now && confirms(
                                members.spec_get(prev[t].member_id),
                                prev[t],
                            ) implies confirmed@.contains(prev[t].member_id) by {
                            if t < i {
                                let w = choose|w: int|
                                    0 <= w < prev_confirmed.len() && prev_confirmed[w]
                                        == prev[t].member_id;
                                assert(confirmed@[w] == prev[t].member_id);
                            } else {
                                assert(confirmed@[confirmed@.len() - 1] == prev[t].member_id);
                            }
                        }
                    }
                }
            } else {
                let ghost prev_keep = keep@;
                keep.push(s);
                proof {
                    assert forall|s2: Suspicion| #[trigger]
                        keep@.contains(s2) implies (exists|t: int| 0 <= t < i + 1 && prev[t] == s2)
                        && s2.deadline > now by {
                        let w = choose|w: int| 0 <= w < keep@.len() && keep@[w] == s2;
                        if w < prev_keep.len() {
                            assert(prev_keep.contains(s2));
                        } else {
                            assert(prev[i as int] == s2);
                        }
                    }
                    assert forall|s2: Suspicion| ((exists|t: int| 0 <= t < i + 1 && prev[t] == s2)
                        && s2.deadline > now) implies #[trigger] keep@.contains(s2) by {
                        let t = choose|t: int| 0 <= t < i + 1 && prev[t] == s2;
                        if t < i {
                            assert(prev_keep.contains(s2));
                            let w = choose|w: int|
                                0 <= w < prev_keep.len() && prev_keep[w] == s2;
                            assert(keep@[w] == s2);
                        } else {
                            assert(keep@[keep@.len() - 1] == s2);
                        }
                    }
                    assert forall|s2: Suspicion, t: int|
                        #[trigger] keep@.contains(s2) && i + 1 <= t < prev.len() implies s2
                        .member_id != (#[trigger] prev[t]).member_id by {
                        if s2 == s {
                            let w = choose|w: int| 0 <= w < prev.len() && prev[w] == s2;
                            assert(w == i);
                        }
                    }
                    assert forall|a: int, b: int|
                        0 <= a < keep@.len() && 0 <= b < keep@.len() && a != b implies (
                    #[trigger] keep@[a]).member_id != (#[trigger] keep@[b]).member_id by {
                        if a == keep@.len() - 1 {
                            assert(prev_keep.contains(keep@[b]));
                            assert(keep@[b].member_id != prev[i as int].member_id);
                        } else if b == keep@.len() - 1 {
                            assert(prev_keep.contains(keep@[a]));
                            assert(keep@[a].member_id != prev[i as int].member_id);
                        }
                    }
                }
            }
            i += 1;
        }
        self.suspicions = keep;
        proof {
            assert forall|s: Suspicion| #[trigger]
                final(self).suspicions().contains(s) <==> (prev.contains(s) && s.deadline
                > now) by {
                if prev.contains(s) && s.deadline > now {
                    let t = choose|t: int| 0 <= t < prev.len() && prev[t] == s;
                }
            }
        }
        confirmed
    }

    /// The next probe target: rotates through the Alive peers so every
    /// peer is probed regularly; `None` exactly when no peer is Alive.
    pub fn next_target(&mut self, members: &MemberList, self_id: u64) -> (target: Option<u64>)
        requires
            old(self).wf(),
            members.wf(),
        ensures
            final(self).wf(),
            final(self).suspicions() == old(self).suspicions(),
            match target {
                Option::Some(id) => members@.contains_key(id) && members@[id].liveness
                    == Liveness::Alive && id != self_id,
                Option::None => forall|k: u64| #[trigger]
                    members@.contains_key(k) ==> !(members@[k].liveness == Liveness::Alive && k
                        != self_id),
            },
    {
        let alive = members.alive_peers(self_id);
        if alive.len() == 0 {
            Option::None
        } else {
            let idx = (self.cursor % (alive.len() as u64)) as usize;
            self.cursor = self.cursor.wrapping_add(1);
            Option::Some(alive[idx])
        }
    }
}

/// Picks `k` peers from the given list starting at a caller-supplied
/// random offset: used both for the relays of an indirect probe and for
/// the targets of a gossip push. The engine takes the entropy as an
/// argument; whatever the offset, only listed peers are chosen.
pub fn choose_relays(peers: &Vec<u64>, k: usize, seed: u64) -> (r: Vec<u64>)
    ensures
        r@.len() == if k < peers@.len() {
            k as int
        } else {
            peers@.len() as int
        },
        forall|i: int| 0 <= i < r@.len() ==> peers@.contains(#[trigger] r@[i]),
{
    let mut r: Vec<u64> = Vec::new();
    if peers.len() == 0 {
        return r;
    }
    let n = peers.len();
    let take = if k < n {
        k
    } else {
        n
    };
    let mut i: usize = 0;
    while i < take
        invariant
            0 < n == peers@.len(),
            take <= k,
            0 <= i <= take,
            r@.len() == i,
            forall|t: int| 0 <= t < r@.len() ==> peers@.contains(#[trigger] r@[t]),
        decreases take - i,
    {
        let idx = ((seed % (n as u64)) as usize).wrapping_add(i) % n;
        let p = peers[idx];
        proof {
            assert(peers@[idx as int] == p);
        }
        r.push(p);
        i += 1;
    }
    r
}

/// A Suspect member that refutes — gossips its own record with a
/// strictly higher incarnation — before its suspicion timer expires
/// reverts to Alive, and is never later Confirmed from that same
/// suspicion cycle: the refutation is always accepted against the
/// suspected entry, and once applied, the cycle's expiry check can no
/// longer confirm.
pub proof fn lemma_refutation_blocks_confirmation(cur: Member, s: Suspicion, refutation: Member)
    requires
        cur.id == s.member_id,
        cur.liveness == Liveness::Suspect,
        cur.incarnation == s.incarnation,
        refutation.id == s.member_id,
        refutation.liveness == Liveness::Alive,
        refutation.incarnation > s.incarnation,
    ensures
        accepts_claim(Option::Some(cur), refutation),
        !confirms(Option::Some(refutation), s),
{
}

} // verus!
