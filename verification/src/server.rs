//! The engine server: owns the member list, the rumor store, the
//! failure detector, the election records and the per-group health
//! results, and drives them once per protocol tick.
//!
//! The server computes decisions only; the transport edge (sockets,
//! timers, threads) performs the returned actions and feeds back
//! received datagrams. Network loss needs no handling here: the
//! disseminator's redundancy, not retry logic, is the correctness
//! mechanism.

use vstd::prelude::*;
use crate::detector::FailureDetector;
use crate::election::{Candidate, ElectionRecord};
use crate::member::{accepts_claim, MemberList};
use crate::detector::due_confirmation;
use crate::election::{evaluation_step, is_winner, spec_alive, ElectionStatus};
use crate::rumor::{membership_rumor, spec_stream_key, stamp_le, Rumor, RumorBody, VersionStamp};
use crate::store::{merge, RumorStore};
use crate::types::{HealthCheckResult, Liveness, Member};

verus! {

/// Protocol tunables. The suspicion window and the retransmission cap
/// scale with cluster size at the call site; here they are plain
/// numbers, since their exact scaling is policy, not correctness.
#[derive(Clone, Copy, Debug, PartialEq, Eq, Structural)]
pub struct Tunables {
    /// Peers pushed to per tick.
    pub fanout: usize,
    /// Rumors per gossip batch.
    pub batch_limit: usize,
    /// Retransmissions per rumor before it goes quiet.
    pub retransmit_cap: u64,
    /// Ticks a suspicion stays open before it confirms.
    pub suspicion_ticks: u64,
}

/// What the transport edge must do after a tick.
pub struct TickActions {
    /// Peer to send a direct probe to, if any peer is Alive.
    pub probe: Option<u64>,
    /// Peers to push this tick's gossip batch to.
    pub gossip_peers: Vec<u64>,
    /// Stream keys of the rumors in this tick's batch.
    pub gossip_keys: Vec<u128>,
    /// Members confirmed dead by suspicion expiry this tick.
    pub confirmed: Vec<u64>,
}

/// Latest health result per service group (first match wins; groups are
/// kept unique).
pub open spec fn spec_health(h: Seq<(u64, HealthCheckResult)>, group: u64) -> Option<
    HealthCheckResult,
> {
    if exists|i: int| 0 <= i < h.len() && (#[trigger] h[i]).0 == group {
        Option::Some(h[choose|i: int| 0 <= i < h.len() && (#[trigger] h[i]).0 == group].1)
    } else {
        Option::None
    }
}

/// The member record a departure rumor tombstones: the known entry with
/// the announced incarnation and the Departed state, or a fresh skeleton
/// entry when the member was never heard of.
pub open spec fn departure_claim(current: Option<Member>, member_id: u64, incarnation: u64) -> Member {
    match current {
        Option::Some(existing) => Member {
            id: existing.id,
            address: existing.address,
            swim_port: existing.swim_port,
            gossip_port: existing.gossip_port,
            incarnation,
            liveness: Liveness::Departed,
        },
        Option::None => Member {
            id: member_id,
            address: 0,
            swim_port: 0,
            gossip_port: 0,
            incarnation,
            liveness: Liveness::Departed,
        },
    }
}

/// Whether merging a rumor actually changes a store (its stream is new
/// or the stamp strictly advances).
pub open spec fn store_applies(pre: Map<u128, Rumor>, r: Rumor) -> bool {
    !(pre.contains_key(spec_stream_key(r)) && stamp_le(r.stamp, pre[spec_stream_key(r)].stamp))
}

/// The stream key under which a group's election outcomes travel.
pub open spec fn election_stream(group: u64) -> u128 {
    (0x2_0000_0000_0000_0000u128 + group as u128) as u128
}

/// What a rumor that speaks about this agent's own record does: it is
/// never applied — only the owner may mutate its record — and if it
/// would have beaten the local record, the agent refutes it by bumping
/// its own incarnation and re-announcing itself Alive to the member
/// list and the rumor store.
pub open spec fn self_claim_effect(pre: Server, post: Server, claim: Member, applied: bool) -> bool {
    &&& applied == false
    &&& if accepts_claim(Option::Some(pre.me), claim) && pre.me.incarnation < u64::MAX {
        &&& post.me.id == pre.me.id
        &&& post.me.address == pre.me.address
        &&& post.me.swim_port == pre.me.swim_port
        &&& post.me.gossip_port == pre.me.gossip_port
        &&& post.me.incarnation == pre.me.incarnation + 1
        &&& post.me.liveness == Liveness::Alive
        &&& post.members@ == pre.members@.insert(pre.me.id, post.me)
        &&& post.store@ == merge(
            pre.store@,
            Rumor {
                stamp: VersionStamp { epoch: post.me.incarnation, seq: 0 },
                body: RumorBody::Membership { member: post.me },
            },
        )
    } else {
        &&& post.me == pre.me
        &&& post.members@ == pre.members@
        &&& post.store@ == pre.store@
    }
}

/// A record as one tick's evaluation leaves it: either one evaluation
/// step relates it to its pre-tick state, or its term had hit the
/// machine limit and it is left untouched.
pub open spec fn evaluated_record(pre: ElectionRecord, post: ElectionRecord, m: Map<u64, Member>) -> bool {
    (exists|e: Option<Rumor>| evaluation_step(pre, post, m, e)) || (pre.term == u64::MAX && post
        == pre)
}

/// The gossip and election engine of one agent.
pub struct Server {
    /// This agent's own member record; its liveness is always Alive and
    /// its incarnation only ever grows (only the member itself may bump
    /// it, to refute suspicion).
    pub me: Member,
    pub members: MemberList,
    pub store: RumorStore,
    pub detector: FailureDetector,
    pub elections: Vec<ElectionRecord>,
    pub health: Vec<(u64, HealthCheckResult)>,
    pub config: Tunables,
}

impl Server {
    pub open spec fn wf(&self) -> bool {
        &&& self.members.wf()
        &&& self.store.wf()
        &&& self.detector.wf()
        &&& self.me.liveness == Liveness::Alive
        &&& self.members@.contains_key(self.me.id)
        &&& self.members@[self.me.id] == self.me
        &&& forall|i: int| 0 <= i < self.elections@.len() ==> (#[trigger] self.elections@[i]).wf()
        &&& forall|i: int, j: int|
            0 <= i < self.elections@.len() && 0 <= j < self.elections@.len() && i != j ==> (
            #[trigger] self.elections@[i]).group != (#[trigger] self.elections@[j]).group
        &&& forall|i: int, j: int|
            0 <= i < self.health@.len() && 0 <= j < self.health@.len() && i != j ==> (
            #[trigger] self.health@[i]).0 != (#[trigger] self.health@[j]).0
    }

    /// A fresh engine knowing only itself, Alive, with its own
    /// membership rumor queued so the first gossip push announces it.
    pub fn new(me: Member, config: Tunables) -> (r: Server)
        requires
            me.liveness == Liveness::Alive,
        ensures
            r.wf(),
            r.me == me,
            r.members@ == Map::<u64, Member>::empty().insert(me.id, me),
            r.store@ == Map::<u128, Rumor>::empty().insert(
                me.id as u128,
                Rumor {
                    stamp: crate::rumor::VersionStamp { epoch: me.incarnation, seq: 0 },
                    body: RumorBody::Membership { member: me },
                },
            ),
            r.elections@ == Seq::<ElectionRecord>::empty(),
            r.health@ == Seq::<(u64, HealthCheckResult)>::empty(),
            r.detector.suspicions() == Seq::<crate::detector::Suspicion>::empty(),
            r.config == config,
    {
        let mut members = MemberList::new();
        members.apply(me);
        let mut store = RumorStore::new();
        store.insert(membership_rumor(me));
        Server {
            me,
            members,
            store,
            detector: FailureDetector::new(),
            elections: Vec::new(),
            health: Vec::new(),
            config,
        }
    }

    /// Applies one received rumor: merges it into the store and lets the
    /// component that owns the fact react. Returns whether the store
    /// changed (a changed rumor is re-queued for further gossip; a stale
    /// one is silently discarded, which is normal steady state). A rumor
    /// about this agent's own record is never applied; if it would have
    /// won, the agent refutes it instead.
    pub fn handle_rumor(&mut self, r: Rumor) -> (applied: bool)
        requires
            old(self).wf(),
        ensures
            final(self).wf(),
            final(self).me.id == old(self).me.id,
            final(self).me.liveness == Liveness::Alive,
            final(self).me.incarnation >= old(self).me.incarnation,
            final(self).config == old(self).config,
            final(self).health@ == old(self).health@,
            final(self).detector == old(self).detector,
            !(r.body matches RumorBody::Election { .. }) ==> final(self).elections@ == old(
                self,
            ).elections@,
            forall|k: u128|
                old(self).store@.contains_key(k) ==> final(self).store@.contains_key(k),
            match r.body {
                RumorBody::Membership { member } => if member.id != old(self).me.id {
                    &&& final(self).me == old(self).me
                    &&& final(self).store@ == merge(old(self).store@, r)
                    &&& applied == store_applies(old(self).store@, r)
                    &&& final(self).members@ == (if accepts_claim(
                        old(self).members.spec_get(member.id),
                        member,
                    ) {
                        old(self).members@.insert(member.id, member)
                    } else {
                        old(self).members@
                    })
                } else {
                    self_claim_effect(*old(self), *final(self), member, applied)
                },
                RumorBody::Departure { member_id, incarnation } => {
                    let claim = departure_claim(
                        old(self).members.spec_get(member_id),
                        member_id,
                        incarnation,
                    );
                    if member_id != old(self).me.id {
                        &&& final(self).me == old(self).me
                        &&& final(self).store@ == merge(old(self).store@, r)
                        &&& applied == store_applies(old(self).store@, r)
                        &&& final(self).members@ == (if accepts_claim(
                            old(self).members.spec_get(member_id),
                            claim,
                        ) {
                            old(self).members@.insert(member_id, claim)
                        } else {
                            old(self).members@
                        })
                    } else {
                        self_claim_effect(*old(self), *final(self), claim, applied)
                    }
                },
                RumorBody::Election { group, term, winner, suitability } => {
                    &&& final(self).me == old(self).me
                    &&& final(self).members@ == old(self).members@
                    &&& final(self).store@ == merge(old(self).store@, r)
                    &&& applied == store_applies(old(self).store@, r)
                    &&& exists|i: int|
                        {
                            &&& 0 <= i < final(self).elections@.len()
                            &&& (#[trigger] final(self).elections@[i]).group == group
                            &&& final(self).elections@[i].term >= term
                            &&& final(self).elections@[i].candidates().contains(
                                Candidate { member: winner, suitability },
                            )
                        }
                },
                _ => {
                    &&& final(self).me == old(self).me
                    &&& final(self).members@ == old(self).members@
                    &&& final(self).store@ == merge(old(self).store@, r)
                    &&& applied == store_applies(old(self).store@, r)
                },
            },
    {
        let me_id = self.me.id;
        let claim: Option<Member> = match &r.body {
            RumorBody::Membership { member } => Option::Some(*member),
            RumorBody::Departure { member_id, incarnation } => {
                proof {
                    if self.members@.contains_key(*member_id) {
                        self.members.lemma_entry_id(*member_id);
                    }
                }
                Option::Some(
                    match self.members.get(*member_id) {
                        Option::Some(existing) => Member {
                            id: existing.id,
                            address: existing.address,
                            swim_port: existing.swim_port,
                            gossip_port: existing.gossip_port,
                            incarnation: *incarnation,
                            liveness: Liveness::Departed,
                        },
                        Option::None => Member {
                            id: *member_id,
                            address: 0,
                            swim_port: 0,
                            gossip_port: 0,
                            incarnation: *incarnation,
                            liveness: Liveness::Departed,
                        },
                    },
                )
            },
            _ => Option::None,
        };
        let outcome: Option<(u64, u64, u64, u64)> = match &r.body {
            RumorBody::Election { group, term, winner, suitability } => Option::Some(
                (*group, *term, *winner, *suitability),
            ),
            _ => Option::None,
        };
        match claim {
            Option::Some(c) => {
                if c.id != me_id {
                    let applied = self.store.insert(r);
                    self.members.apply(c);
                    applied
                } else {
                    let beaten = crate::member::claim_beats(&self.me, &c);
                    if beaten && self.me.incarnation < u64::MAX {
                        self.me = Member { incarnation: self.me.incarnation + 1, ..self.me };
                        self.members.apply(self.me);
                        self.store.insert(membership_rumor(self.me));
                    }
                    false
                }
            },
            Option::None => {
                let applied = self.store.insert(r);
                match outcome {
                    Option::Some((group, term, winner, suitability)) => {
                        let mut rec = self.take_record(group);
                        rec.declare_candidate(winner, suitability);
                        if term > rec.term {
                            rec.term = term;
                            rec.status = ElectionStatus::Finished;
                            rec.winner = Option::Some(winner);
                        }
                        let ghost snap = rec;
                        self.put_record(rec);
                        proof {
                            assert(self.elections@[self.elections@.len() - 1] == snap);
                        }
                    },
                    Option::None => {},
                }
                applied
            },
        }
    }

    /// Removes and returns the election record of a group, creating a
    /// fresh one if none exists yet.
    fn take_record(&mut self, group: u64) -> (rec: ElectionRecord)
        requires
            old(self).wf(),
        ensures
            final(self).wf(),
            rec.wf(),
            rec.group == group,
            final(self).me == old(self).me,
            final(self).members@ == old(self).members@,
            final(self).store@ == old(self).store@,
            final(self).store.send_counts() == old(self).store.send_counts(),
            final(self).health@ == old(self).health@,
            final(self).detector == old(self).detector,
            final(self).config == old(self).config,
            forall|i: int|
                0 <= i < final(self).elections@.len()
                    ==> (#[trigger] final(self).elections@[i]).group != group,
            (exists|j: int|
                0 <= j < old(self).elections@.len() && (#[trigger] old(self).elections@[j]).group
                    == group && rec == old(self).elections@[j]) || ((forall|j: int|
                0 <= j < old(self).elections@.len() ==> (#[trigger] old(self).elections@[j]).group
                    != group) && rec.term == 0 && rec.status == crate::election::ElectionStatus::Running
                && rec.winner.is_none() && rec.candidates() == Seq::<Candidate>::empty()),
    {
        let mut i: usize = 0;
        while i < self.elections.len()
            invariant
                *self == *old(self),
                self.wf(),
                0 <= i <= self.elections@.len(),
                forall|t: int| 0 <= t < i ==> (#[trigger] self.elections@[t]).group != group,
            decreases self.elections@.len() - i,
        {
            if self.elections[i].group == group {
                let ghost prev = self.elections@;
                let rec = self.elections.remove(i);
                proof {
                    assert forall|t: int|
                        0 <= t < self.elections@.len() implies (#[trigger] self
                        .elections@[t]).group != group by {
                        if t < i {
                            assert(self.elections@[t] == prev[t]);
                        } else {
                            assert(self.elections@[t] == prev[t + 1]);
                        }
                    }
                }
                return rec;
            }
            i += 1;
        }
        ElectionRecord::new(group)
    }

    /// Puts an election record back; its group must not be present.
    fn put_record(&mut self, rec: ElectionRecord)
        requires
            old(self).wf(),
            rec.wf(),
            forall|i: int|
                0 <= i < old(self).elections@.len()
                    ==> (#[trigger] old(self).elections@[i]).group != rec.group,
        ensures
            final(self).wf(),
            final(self).me == old(self).me,
            final(self).members@ == old(self).members@,
            final(self).store@ == old(self).store@,
            final(self).store.send_counts() == old(self).store.send_counts(),
            final(self).health@ == old(self).health@,
            final(self).detector == old(self).detector,
            final(self).config == old(self).config,
            final(self).elections@ == old(self).elections@.push(rec),
    {
        self.elections.push(rec);
    }

    /// Stores the latest health-check result for a group; the engine
    /// keeps no history.
    pub fn report_health(&mut self, group: u64, result: HealthCheckResult)
        requires
            old(self).wf(),
        ensures
            final(self).wf(),
            spec_health(final(self).health@, group) == Option::Some(result),
            forall|g: u64|
                g != group ==> spec_health(final(self).health@, g) == spec_health(
                    old(self).health@,
                    g,
                ),
    {
        let mut i: usize = 0;
        while i < self.health.len()
            invariant
                *self == *old(self),
                self.wf(),
                0 <= i <= self.health@.len(),
                forall|t: int| 0 <= t < i ==> (#[trigger] self.health@[t]).0 != group,
            decreases self.health@.len() - i,
        {
            let here = self.health[i];
            if here.0 == group {
                let ghost prev = self.health@;
                self.health[i] = (group, result);
                proof {
                    lemma_health_update(prev, self.health@, i as int, group, result);
                }
                return ;
            }
            i += 1;
        }
        let ghost prev = self.health@;
        self.health.push((group, result));
        proof {
            lemma_health_push(prev, self.health@, group, result);
        }
    }

    /// The latest health result for a group, if one was ever reported.
    pub fn health_of(&self, group: u64) -> (r: Option<HealthCheckResult>)
        requires
            self.wf(),
        ensures
            r == spec_health(self.health@, group),
    {
        let mut i: usize = 0;
        while i < self.health.len()
            invariant
                self.wf(),
                0 <= i <= self.health@.len(),
                forall|t: int| 0 <= t < i ==> (#[trigger] self.health@[t]).0 != group,
            decreases self.health@.len() - i,
        {
            let here = self.health[i];
            if here.0 == group {
                proof {
                    let w = choose|w: int|
                        0 <= w < self.health@.len() && (#[trigger] self.health@[w]).0 == group;
                    assert(w == i);
                }
                return Option::Some(here.1);
            }
            i += 1;
        }
        proof {
            if exists|w: int| 0 <= w < self.health@.len() && (#[trigger] self.health@[w]).0
                == group {
                let w = choose|w: int|
                    0 <= w < self.health@.len() && (#[trigger] self.health@[w]).0 == group;
            }
        }
        Option::None
    }

    /// Registers a candidacy from the service-definition collaborator
    /// and re-evaluates the group's election: the record settles on the
    /// unique leader among the Alive candidates (or NoQuorum if none is
    /// Alive), and a changed candidacy that yields a winner has the
    /// outcome queued for gossip.
    pub fn declare_candidate(&mut self, group: u64, member: u64, suitability: u64)
        requires
            old(self).wf(),
        ensures
            final(self).wf(),
            final(self).me == old(self).me,
            final(self).members@ == old(self).members@,
            final(self).health@ == old(self).health@,
            final(self).detector == old(self).detector,
            final(self).config == old(self).config,
            forall|k: u128|
                old(self).store@.contains_key(k) ==> final(self).store@.contains_key(k),
            final(self).elections@.len() >= 1,
            ({
                let rec = final(self).elections@.last();
                &&& rec.wf()
                &&& rec.group == group
                &&& rec.candidates().contains(Candidate { member, suitability })
                &&& (rec.term < u64::MAX ==> {
                    &&& ((forall|c: Candidate|
                        rec.candidates().contains(c) ==> !spec_alive(
                            old(self).members@,
                            c.member,
                        )) ==> rec.status == ElectionStatus::NoQuorum && rec.winner.is_none())
                    &&& ((exists|w: Candidate|
                        is_winner(rec.candidates(), old(self).members@, w)) ==> {
                        let w = choose|w: Candidate|
                            is_winner(rec.candidates(), old(self).members@, w);
                        rec.status == ElectionStatus::Finished && rec.winner == Option::Some(
                            w.member,
                        )
                    })
                })
            }),
            ({
                let rec = final(self).elections@.last();
                let had_same = exists|j: int|
                    0 <= j < old(self).elections@.len()
                        && (#[trigger] old(self).elections@[j]).group == group
                        && old(self).elections@[j].candidates().contains(
                        Candidate { member, suitability },
                    );
                (!had_same && rec.term < u64::MAX && (exists|w: Candidate|
                    is_winner(rec.candidates(), old(self).members@, w)))
                    ==> final(self).store@.contains_key(election_stream(group))
            }),
    {
        let mut rec = self.take_record(group);
        rec.declare_candidate(member, suitability);
        if rec.term < u64::MAX {
            let emitted = rec.evaluate(&self.members);
            match emitted {
                Option::Some(r) => {
                    let ghost k = spec_stream_key(r);
                    self.store.insert(r);
                    proof {
                        assert(self.store@.contains_key(k));
                    }
                },
                Option::None => {},
            }
        }
        let ghost snap = rec;
        self.put_record(rec);
        proof {
            assert(self.elections@[self.elections@.len() - 1] == snap);
        }
    }

    /// One protocol tick. In order: this tick's gossip batch is drawn
    /// from the store (least-sent rumors first, counters incremented);
    /// due suspicions are closed, confirming unrefuted Suspect members
    /// dead, marking them in the member list and queueing the
    /// confirmation rumor; every election record is re-evaluated against
    /// the updated liveness, announcing changed outcomes; and a probe
    /// target plus the gossip targets are picked from the Alive peers.
    /// The member key set never changes during a tick: members appear
    /// only through received rumors.
    #[verifier::loop_isolation(false)]
    pub fn tick(&mut self, now: u64, entropy: u64) -> (actions: TickActions)
        requires
            old(self).wf(),
        ensures
            final(self).wf(),
            final(self).me == old(self).me,
            final(self).config == old(self).config,
            final(self).health@ == old(self).health@,
            // the gossip batch, against the pre-tick store
            actions.gossip_keys@.len() <= old(self).config.batch_limit,
            actions.gossip_keys@.no_duplicates(),
            forall|i: int|
                0 <= i < actions.gossip_keys@.len() ==> {
                    &&& old(self).store@.contains_key(#[trigger] actions.gossip_keys@[i])
                    &&& old(self).store.send_counts()[actions.gossip_keys@[i]] < old(
                        self,
                    ).config.retransmit_cap
                },
            actions.gossip_keys@.len() < old(self).config.batch_limit ==> forall|k: u128|
                #[trigger] old(self).store@.contains_key(k) && old(self).store.send_counts()[k]
                    < old(self).config.retransmit_cap ==> actions.gossip_keys@.contains(k),
            forall|i: int, k: u128|
                0 <= i < actions.gossip_keys@.len() && #[trigger] old(self).store@.contains_key(k)
                    && old(self).store.send_counts()[k] < old(self).config.retransmit_cap
                    && !actions.gossip_keys@.contains(k) ==> old(self).store.send_counts()[
                    #[trigger] actions.gossip_keys@[i]
                ] <= old(self).store.send_counts()[k],
            // suspicion expiry: exactly the due cycles close, and exactly
            // the still-confirming ones are confirmed
            forall|s: crate::detector::Suspicion|
                #[trigger] final(self).detector.suspicions().contains(s) <==> (old(
                    self,
                ).detector.suspicions().contains(s) && s.deadline > now),
            forall|i: int|
                0 <= i < actions.confirmed@.len() ==> due_confirmation(
                    old(self).detector.suspicions(),
                    old(self).members.spec_get(#[trigger] actions.confirmed@[i]),
                    now,
                    actions.confirmed@[i],
                ),
            forall|s: crate::detector::Suspicion|
                #[trigger] old(self).detector.suspicions().contains(s) && s.deadline <= now
                    && crate::detector::confirms(old(self).members.spec_get(s.member_id), s)
                    ==> actions.confirmed@.contains(s.member_id),
            // membership: the key set is preserved; only confirmed
            // members change, and they are marked Confirmed with their
            // confirmation queued for gossip
            forall|k: u64|
                final(self).members@.contains_key(k) <==> old(self).members@.contains_key(k),
            forall|k: u64|
                #[trigger] old(self).members@.contains_key(k) && !actions.confirmed@.contains(k)
                    ==> final(self).members@[k] == old(self).members@[k],
            forall|i: int|
                0 <= i < actions.confirmed@.len() ==> {
                    &&& final(self).members@.contains_key(#[trigger] actions.confirmed@[i])
                    &&& final(self).members@[actions.confirmed@[i]].liveness == Liveness::Confirmed
                    &&& final(self).store@.contains_key(actions.confirmed@[i] as u128)
                },
            // the store only gains streams
            forall|k: u128|
                old(self).store@.contains_key(k) ==> final(self).store@.contains_key(k),
            // every election record is evaluated once against the
            // updated liveness, with changed outcomes queued for gossip
            final(self).elections@.len() == old(self).elections@.len(),
            forall|i: int|
                0 <= i < final(self).elections@.len() ==> evaluated_record(
                    old(self).elections@[i],
                    #[trigger] final(self).elections@[i],
                    final(self).members@,
                ),
            forall|i: int|
                0 <= i < final(self).elections@.len()
                    && (#[trigger] final(self).elections@[i]).term > old(self).elections@[i].term
                    ==> final(self).store@.contains_key(
                    election_stream(old(self).elections@[i].group),
                ),
            // probing and pushing go to Alive peers only
            forall|i: int|
                0 <= i < actions.gossip_peers@.len() ==> {
                    &&& final(self).members@.contains_key(#[trigger] actions.gossip_peers@[i])
                    &&& final(self).members@[actions.gossip_peers@[i]].liveness == Liveness::Alive
                    &&& actions.gossip_peers@[i] != old(self).me.id
                },
            (exists|k: u64|
                #[trigger] final(self).members@.contains_key(k)
                    && final(self).members@[k].liveness == Liveness::Alive
                    && k != old(self).me.id) && old(self).config.fanout > 0
                ==> actions.gossip_peers@.len() > 0,
            match actions.probe {
                Option::Some(id) => final(self).members@.contains_key(id)
                    && final(self).members@[id].liveness == Liveness::Alive
                    && id != old(self).me.id,
                Option::None => forall|k: u64| #[trigger]
                    final(self).members@.contains_key(k) ==> !(final(self).members@[k].liveness
                        == Liveness::Alive && k != old(self).me.id),
            },
    {
        // 1. this tick's gossip batch, from the store as it stands
        let batch_limit = self.config.batch_limit;
        let cap = self.config.retransmit_cap;
        let keys = self.store.select_for_gossip(batch_limit, cap);
        // 2. close due suspicion cycles; unrefuted ones confirm
        let confirmed = self.detector.expire_due(now, &self.members);
        let ghost mid = *self;
        let mut c: usize = 0;
        while c < confirmed.len()
            invariant
                self.wf(),
                self.me == old(self).me,
                self.config == old(self).config,
                self.health@ == old(self).health@,
                self.detector == mid.detector,
                self.elections@ == old(self).elections@,
                0 <= c <= confirmed@.len(),
                forall|i: int|
                    0 <= i < confirmed@.len() ==> due_confirmation(
                        old(self).detector.suspicions(),
                        old(self).members.spec_get(#[trigger] confirmed@[i]),
                        now,
                        confirmed@[i],
                    ),
                forall|k: u64|
                    self.members@.contains_key(k) <==> old(self).members@.contains_key(k),
                forall|k: u64|
                    #[trigger] old(self).members@.contains_key(k) && !confirmed@.take(
                        c as int,
                    ).contains(k) ==> self.members@[k] == old(self).members@[k],
                forall|t: int|
                    0 <= t < c ==> {
                        &&& self.members@.contains_key(#[trigger] confirmed@[t])
                        &&& self.members@[confirmed@[t]].liveness == Liveness::Confirmed
                        &&& self.store@.contains_key(confirmed@[t] as u128)
                    },
                forall|k: u128| mid.store@.contains_key(k) ==> self.store@.contains_key(k),
            decreases confirmed@.len() - c,
        {
            let id = confirmed[c];
            proof {
                // a confirmed id was Suspect before the tick, so it is a
                // known member and never this agent (which is Alive)
                assert(due_confirmation(
                    old(self).detector.suspicions(),
                    old(self).members.spec_get(id),
                    now,
                    id,
                ));
                let t = choose|t: int|
                    {
                        &&& 0 <= t < old(self).detector.suspicions().len()
                        &&& (#[trigger] old(self).detector.suspicions()[t]).member_id == id
                        &&& old(self).detector.suspicions()[t].deadline <= now
                        &&& crate::detector::confirms(
                            old(self).members.spec_get(id),
                            old(self).detector.suspicions()[t],
                        )
                    };
                assert(old(self).members@.contains_key(id));
                assert(id != old(self).me.id);
                if self.members@.contains_key(id) {
                    self.members.lemma_entry_id(id);
                }
                if confirmed@.take(c as int).contains(id) {
                    let w = choose|w: int|
                        0 <= w < c && confirmed@.take(c as int)[w] == id;
                    assert(confirmed@[w] == id);
                    assert(self.members@[id].liveness == Liveness::Confirmed);
                } else {
                    assert(self.members@[id] == old(self).members@[id]);
                }
            }
            let ghost pre_members = self.members@;
            let ghost pre_store = self.store@;
            let me_snapshot = self.me;
            let dead = match self.members.get(id) {
                Option::Some(m) => Member { liveness: Liveness::Confirmed, ..*m },
                Option::None => me_snapshot,  // unreachable: the id is a known member
            };
            self.members.apply(dead);
            self.store.insert(membership_rumor(dead));
            proof {
                assert(self.store@.contains_key(id as u128));
                assert forall|t: int|
                    0 <= t < c + 1 implies {
                        &&& self.members@.contains_key(#[trigger] confirmed@[t])
                        &&& self.members@[confirmed@[t]].liveness == Liveness::Confirmed
                        &&& self.store@.contains_key(confirmed@[t] as u128)
                    } by {
                    if t < c {
                        assert(pre_members[confirmed@[t]].liveness == Liveness::Confirmed);
                        assert(pre_store.contains_key(confirmed@[t] as u128));
                    }
                }
                assert forall|k: u64|
                    #[trigger] old(self).members@.contains_key(k) && !confirmed@.take(
                        c as int + 1,
                    ).contains(k) implies self.members@[k] == old(self).members@[k] by {
                    assert(confirmed@.take(c as int + 1)[c as int] == id);
                    if k != id {
                        if confirmed@.take(c as int).contains(k) {
                            let w = choose|w: int|
                                0 <= w < c && confirmed@.take(c as int)[w] == k;
                            assert(confirmed@.take(c as int + 1)[w] == k);
                        }
                        assert(pre_members[k] == old(self).members@[k]);
                    }
                }
            }
            c += 1;
        }
        proof {
            assert(confirmed@.take(confirmed@.len() as int) =~= confirmed@);
        }
        // 3. elections react to this tick's liveness changes
        let ghost pre_elections = self.elections@;
        let ghost pre_tick_store = self.store@;
        let mut evaluated: Vec<ElectionRecord> = Vec::new();
        let ghost post_confirm = *self;
        while self.elections.len() > 0
            invariant
                self.members.wf(),
                self.store.wf(),
                self.detector.wf(),
                self.me == old(self).me,
                self.me.liveness == Liveness::Alive,
                self.members@.contains_key(self.me.id),
                self.members@[self.me.id] == self.me,
                self.config == old(self).config,
                self.health@ == old(self).health@,
                self.detector == post_confirm.detector,
                self.members@ == post_confirm.members@,
                forall|i: int, j: int|
                    0 <= i < self.health@.len() && 0 <= j < self.health@.len() && i != j ==> (
                    #[trigger] self.health@[i]).0 != (#[trigger] self.health@[j]).0,
                pre_elections == old(self).elections@,
                evaluated@.len() + self.elections@.len() == pre_elections.len(),
                self.elections@ == pre_elections.skip(evaluated@.len() as int),
                forall|i: int|
                    0 <= i < evaluated@.len() ==> evaluated_record(
                        pre_elections[i],
                        #[trigger] evaluated@[i],
                        self.members@,
                    ),
                forall|i: int|
                    0 <= i < evaluated@.len() && (#[trigger] evaluated@[i]).term
                        > pre_elections[i].term ==> self.store@.contains_key(
                        election_stream(pre_elections[i].group),
                    ),
                forall|i: int| 0 <= i < evaluated@.len() ==> (#[trigger] evaluated@[i]).wf(),
                forall|i: int|
                    0 <= i < evaluated@.len() ==> (#[trigger] evaluated@[i]).group
                        == pre_elections[i].group,
                forall|k: u128| pre_tick_store.contains_key(k) ==> self.store@.contains_key(k),
            decreases self.elections@.len(),
        {
            let ghost n = evaluated@.len() as int;
            let mut rec = self.elections.remove(0);
            proof {
                assert(pre_elections.skip(n)[0] == pre_elections[n]);
                assert(pre_elections.skip(n).remove(0) =~= pre_elections.skip(n + 1));
            }
            let ghost pre_rec = rec;
            if rec.term < u64::MAX {
                let emitted = rec.evaluate(&self.members);
                let ghost ge = emitted;
                proof {
                    assert(evaluation_step(pre_rec, rec, self.members@, ge));
                    assert(evaluated_record(pre_rec, rec, self.members@));
                }
                match emitted {
                    Option::Some(em) => {
                        let ghost k = spec_stream_key(em);
                        let ghost before_insert = self.store@;
                        self.store.insert(em);
                        proof {
                            assert(self.store@.contains_key(k));
                            assert forall|k2: u128|
                                before_insert.contains_key(k2) implies self.store@.contains_key(
                                k2,
                            ) by {}
                        }
                    },
                    Option::None => {},
                }
                proof {
                    if rec.term > pre_rec.term {
                        let em = ge->0;
                        assert(spec_stream_key(em) == election_stream(pre_rec.group));
                        assert(self.store@.contains_key(election_stream(pre_rec.group)));
                    }
                }
            } else {
                proof {
                    assert(evaluated_record(pre_rec, rec, self.members@));
                }
            }
            let ghost pre_eval = evaluated@;
            evaluated.push(rec);
            proof {
                assert(evaluated@[n] == rec);
                assert forall|i: int|
                    0 <= i < evaluated@.len() - 1 implies evaluated@[i] == pre_eval[i] by {}
            }
        }
        self.elections = evaluated;
        proof {
            assert(self.elections@ == evaluated@);
            assert forall|i: int, j: int|
                0 <= i < self.elections@.len() && 0 <= j < self.elections@.len() && i
                    != j implies (#[trigger] self.elections@[i]).group != (
            #[trigger] self.elections@[j]).group by {
                assert(self.elections@[i].group == pre_elections[i].group);
                assert(self.elections@[j].group == pre_elections[j].group);
            }
        }
        proof {
            assert forall|k: u128|
                old(self).store@.contains_key(k) implies self.store@.contains_key(k) by {
                assert(mid.store@.contains_key(k));
                assert(pre_tick_store.contains_key(k));
            }
        }
        // 4. probe rotation and gossip targets among the Alive peers
        let probe = self.detector.next_target(&self.members, self.me.id);
        let peers = self.members.alive_peers(self.me.id);
        let fanout = self.config.fanout;
        let gossip_peers = crate::detector::choose_relays(&peers, fanout, entropy);
        proof {
            assert forall|i: int|
                0 <= i < gossip_peers@.len() implies {
                    &&& self.members@.contains_key(#[trigger] gossip_peers@[i])
                    &&& self.members@[gossip_peers@[i]].liveness == Liveness::Alive
                    &&& gossip_peers@[i] != old(self).me.id
                } by {
                assert(peers@.contains(gossip_peers@[i]));
                let w = choose|w: int| 0 <= w < peers@.len() && peers@[w] == gossip_peers@[i];
                assert(peers@[w] == gossip_peers@[i]);
            }
            if (exists|k: u64|
                self.members@.contains_key(k) && self.members@[k].liveness == Liveness::Alive && k
                    != old(self).me.id) && fanout > 0 {
                let k = choose|k: u64|
                    self.members@.contains_key(k) && self.members@[k].liveness == Liveness::Alive
                        && k != old(self).me.id;
                assert(peers@.contains(k));
            }
        }
        TickActions { probe, gossip_peers, gossip_keys: keys, confirmed }
    }

    /// Refutes an open suspicion about this agent: bumps the self-owned
    /// incarnation and gossips the refreshed Alive record to the member
    /// list and the rumor store. Self-rumors always claim Alive with an
    /// ever-increasing incarnation; an agent never downgrades its own
    /// liveness.
    pub fn refute(&mut self)
        requires
            old(self).wf(),
            old(self).me.incarnation < u64::MAX,
        ensures
            final(self).wf(),
            final(self).me.id == old(self).me.id,
            final(self).me.liveness == Liveness::Alive,
            final(self).me.incarnation == old(self).me.incarnation + 1,
            final(self).me.address == old(self).me.address,
            final(self).me.swim_port == old(self).me.swim_port,
            final(self).me.gossip_port == old(self).me.gossip_port,
            final(self).members@ == old(self).members@.insert(old(self).me.id, final(self).me),
            final(self).store@ == merge(
                old(self).store@,
                Rumor {
                    stamp: VersionStamp { epoch: final(self).me.incarnation, seq: 0 },
                    body: RumorBody::Membership { member: final(self).me },
                },
            ),
            final(self).elections@ == old(self).elections@,
            final(self).health@ == old(self).health@,
            final(self).detector == old(self).detector,
            final(self).config == old(self).config,
    {
        self.me = Member { incarnation: self.me.incarnation + 1, ..self.me };
        self.members.apply(self.me);
        self.store.insert(membership_rumor(self.me));
    }

    /// Announces a graceful departure: the one rumor in which an agent
    /// speaks of itself with a terminal state. Peers keep the entry
    /// tombstoned, so stale Alive rumors cannot resurrect it.
    pub fn depart(&mut self)
        requires
            old(self).wf(),
        ensures
            final(self).wf(),
            final(self).me == old(self).me,
            final(self).members@ == old(self).members@,
            final(self).store@ == merge(
                old(self).store@,
                Rumor {
                    stamp: crate::rumor::VersionStamp {
                        epoch: old(self).me.incarnation,
                        seq: 3,
                    },
                    body: RumorBody::Departure {
                        member_id: old(self).me.id,
                        incarnation: old(self).me.incarnation,
                    },
                },
            ),
    {
        let r = Rumor {
            stamp: crate::rumor::VersionStamp { epoch: self.me.incarnation, seq: 3 },
            body: RumorBody::Departure {
                member_id: self.me.id,
                incarnation: self.me.incarnation,
            },
        };
        self.store.insert(r);
    }
}

/// Updating the slot of `group` leaves every other group's health
/// unchanged and sets this group's.
proof fn lemma_health_update(
    prev: Seq<(u64, HealthCheckResult)>,
    cur: Seq<(u64, HealthCheckResult)>,
    at: int,
    group: u64,
    result: HealthCheckResult,
)
    requires
        0 <= at < prev.len(),
        cur == prev.update(at, (group, result)),
        prev[at].0 == group,
        forall|i: int, j: int|
            0 <= i < prev.len() && 0 <= j < prev.len() && i != j ==> (#[trigger] prev[i]).0 != (
            #[trigger] prev[j]).0,
    ensures
        spec_health(cur, group) == Option::Some(result),
        forall|g: u64| g != group ==> spec_health(cur, g) == spec_health(prev, g),
{
    assert(cur[at].0 == group);
    assert forall|g: u64| g != group implies spec_health(cur, g) == spec_health(prev, g) by {
        if exists|i: int| 0 <= i < prev.len() && (#[trigger] prev[i]).0 == g {
            let w = choose|i: int| 0 <= i < prev.len() && (#[trigger] prev[i]).0 == g;
            assert(cur[w].0 == g);
            let w2 = choose|i: int| 0 <= i < cur.len() && (#[trigger] cur[i]).0 == g;
            assert(prev[w2].0 == g);
        } else {
            assert forall|i: int| 0 <= i < cur.len() implies (#[trigger] cur[i]).0 != g by {
                if i != at {
                    assert(cur[i] == prev[i]);
                }
            }
        }
    }
    let w = choose|i: int| 0 <= i < cur.len() && (#[trigger] cur[i]).0 == group;
    assert(cur[w].0 == group);
    if w != at {
        assert(prev[w].0 == group);
    }
}

/// Appending a slot for a fresh group sets its health and leaves every
/// other group's unchanged.
proof fn lemma_health_push(
    prev: Seq<(u64, HealthCheckResult)>,
    cur: Seq<(u64, HealthCheckResult)>,
    group: u64,
    result: HealthCheckResult,
)
    requires
        cur == prev.push((group, result)),
        forall|i: int| 0 <= i < prev.len() ==> (#[trigger] prev[i]).0 != group,
        forall|i: int, j: int|
            0 <= i < prev.len() && 0 <= j < prev.len() && i != j ==> (#[trigger] prev[i]).0 != (
            #[trigger] prev[j]).0,
    ensures
        spec_health(cur, group) == Option::Some(result),
        forall|g: u64| g != group ==> spec_health(cur, g) == spec_health(prev, g),
{
    assert(cur[cur.len() - 1].0 == group);
    let w = choose|i: int| 0 <= i < cur.len() && (#[trigger] cur[i]).0 == group;
    if w != cur.len() - 1 {
        assert(prev[w].0 == group);
    }
    assert forall|g: u64| g != group implies spec_health(cur, g) == spec_health(prev, g) by {
        if exists|i: int| 0 <= i < prev.len() && (#[trigger] prev[i]).0 == g {
            let w1 = choose|i: int| 0 <= i < prev.len() && (#[trigger] prev[i]).0 == g;
            assert(cur[w1].0 == g);
            let w2 = choose|i: int| 0 <= i < cur.len() && (#[trigger] cur[i]).0 == g;
            assert(w2 != cur.len() - 1);
            assert(prev[w2].0 == g);
            assert(w2 == w1);
            assert(cur[w2] == prev[w2]);
        } else {
            assert forall|i: int| 0 <= i < cur.len() implies (#[trigger] cur[i]).0 != g by {
                if i < prev.len() {
                    assert(cur[i] == prev[i]);
                }
            }
        }
    }
}

} // verus!
