//! Per-group leader election.
//!
//! Each service group with at least one known candidacy has one
//! `ElectionRecord`. The engine recomputes the candidate with the
//! maximum (suitability, then smaller member id) among all Alive
//! candidates; because both suitability and liveness are gossiped facts,
//! the deterministic tie-break guarantees that all observers converge on
//! the same winner once their inputs converge, without any extra
//! coordination round.

use vstd::prelude::*;
use crate::member::MemberList;
use crate::rumor::{Rumor, RumorBody, VersionStamp};
use crate::types::{Liveness, Member};

verus! {

/// Lifecycle of an election record.
#[derive(Clone, Copy, Debug, PartialEq, Eq, Structural)]
pub enum ElectionStatus {
    Running,
    Finished,
    NoQuorum,
}

/// A candidacy: a member and its externally supplied suitability score.
#[derive(Clone, Copy, Debug, PartialEq, Eq, Structural)]
pub struct Candidate {
    pub member: u64,
    pub suitability: u64,
}

/// `a` leads `b`: strictly higher suitability, or the same suitability
/// and an id no larger (the deterministic tie-break).
pub open spec fn leads(a: Candidate, b: Candidate) -> bool {
    a.suitability > b.suitability || (a.suitability == b.suitability && a.member <= b.member)
}

/// Whether an id is currently Alive in a membership view.
pub open spec fn spec_alive(m: Map<u64, Member>, id: u64) -> bool {
    m.contains_key(id) && m[id].liveness == Liveness::Alive
}

/// `w` is the election winner for a candidate list under a membership
/// view: an Alive candidate that leads every Alive candidate.
pub open spec fn is_winner(cands: Seq<Candidate>, m: Map<u64, Member>, w: Candidate) -> bool {
    &&& cands.contains(w)
    &&& spec_alive(m, w.member)
    &&& forall|c: Candidate| cands.contains(c) && spec_alive(m, c.member) ==> leads(w, c)
}

/// One election per service group.
pub struct ElectionRecord {
    /// The service group this record elects a leader for.
    pub group: u64,
    /// Bumped whenever a new winner is announced, so observers can tell
    /// a fresh outcome from a stale rumor.
    pub term: u64,
    pub status: ElectionStatus,
    /// The last announced winner, if any.
    pub winner: Option<u64>,
    /// The known candidacies; one per member (see `wf`).
    pub candidates: Vec<Candidate>,
}

impl ElectionRecord {
    /// The known candidacies (unique member ids, see `wf`).
    pub open spec fn candidates(&self) -> Seq<Candidate> {
        self.candidates@
    }

    /// One candidacy per member.
    pub open spec fn wf(&self) -> bool {
        forall|i: int, j: int|
            0 <= i < self.candidates@.len() && 0 <= j < self.candidates@.len() && i != j
                ==> (#[trigger] self.candidates@[i]).member != (#[trigger] self.candidates@[j]).member
    }

    /// A record is created when the first candidacy rumor for its group
    /// arrives; it starts Running with no announced winner.
    pub fn new(group: u64) -> (r: ElectionRecord)
        ensures
            r.wf(),
            r.group == group,
            r.term == 0,
            r.status == ElectionStatus::Running,
            r.winner.is_none(),
            r.candidates() == Seq::<Candidate>::empty(),
    {
        ElectionRecord {
            group,
            term: 0,
            status: ElectionStatus::Running,
            winner: Option::None,
            candidates: Vec::new(),
        }
    }

    /// Registers or updates a candidacy. A change re-opens a Finished
    /// record (and wakes a NoQuorum one), so the next evaluation can
    /// settle the outcome again; re-declaring an identical candidacy
    /// changes nothing.
    pub fn declare_candidate(&mut self, member: u64, suitability: u64) -> (changed: bool)
        requires
            old(self).wf(),
        ensures
            final(self).wf(),
            final(self).group == old(self).group,
            final(self).term == old(self).term,
            final(self).winner == old(self).winner,
            changed == !old(self).candidates().contains(Candidate { member, suitability }),
            changed ==> final(self).status == ElectionStatus::Running,
            !changed ==> *final(self) == *old(self),
            final(self).candidates().contains(Candidate { member, suitability }),
            forall|c: Candidate|
                #[trigger] final(self).candidates().contains(c) ==> c.member == member
                    || old(self).candidates().contains(c),
            forall|c: Candidate|
                #[trigger] old(self).candidates().contains(c) && c.member != member
                    ==> final(self).candidates().contains(c),
    {
        let cand = Candidate { member, suitability };
        let mut i: usize = 0;
        while i < self.candidates.len()
            invariant
                cand == (Candidate { member, suitability }),
                *self == *old(self),
                self.wf(),
                0 <= i <= self.candidates@.len(),
                forall|t: int| 0 <= t < i ==> (#[trigger] self.candidates@[t]).member != member,
            decreases self.candidates@.len() - i,
        {
            let here = self.candidates[i];
            if here.member == member {
                if here.suitability == suitability {
                    proof {
                        assert(self.candidates@[i as int] == cand);
                        assert(self.candidates@.contains(cand));
                    }
                    return false;
                }
                let ghost prev = self.candidates@;
                self.candidates[i] = cand;
                self.status = ElectionStatus::Running;
                proof {
                    assert(self.candidates@.contains(cand));
                    assert forall|c: Candidate| #[trigger]
                        prev.contains(c) && c.member != member implies self
                        .candidates@
                        .contains(c) by {
                        let w = choose|w: int| 0 <= w < prev.len() && prev[w] == c;
                        assert(self.candidates@[w] == c);
                    }
                    assert forall|c: Candidate| #[trigger]
                        self.candidates@.contains(c) implies c.member == member || prev.contains(
                        c,
                    ) by {
                        let w = choose|w: int|
                            0 <= w < self.candidates@.len() && self.candidates@[w] == c;
                        if w != i {
                            assert(prev[w] == c);
                        }
                    }
                    assert(!prev.contains(cand));
                }
                return true;
            }
            i += 1;
        }
        let ghost prev = self.candidates@;
        self.candidates.push(cand);
        self.status = ElectionStatus::Running;
        proof {
            assert(self.candidates@[self.candidates@.len() - 1] == cand);
            assert forall|c: Candidate| #[trigger]
                prev.contains(c) && c.member != member implies self.candidates@.contains(c) by {
                let w = choose|w: int| 0 <= w < prev.len() && prev[w] == c;
                assert(self.candidates@[w] == c);
            }
            assert forall|c: Candidate| #[trigger]
                self.candidates@.contains(c) implies c.member == member || prev.contains(c) by {
                let w = choose|w: int| 0 <= w < self.candidates@.len() && self.candidates@[w] == c;
                if w < prev.len() {
                    assert(prev[w] == c);
                }
            }
            assert(!prev.contains(cand));
        }
        true
    }

    /// The unique leader among the currently Alive candidates, if any
    /// candidate is Alive at all.
    pub fn best_candidate(&self, members: &MemberList) -> (r: Option<Candidate>)
        ensures
            match r {
                Option::None => forall|c: Candidate|
                    self.candidates().contains(c) ==> !spec_alive(members@, c.member),
                Option::Some(w) => is_winner(self.candidates(), members@, w),
            },
    {
        let mut best: Option<Candidate> = Option::None;
        let mut i: usize = 0;
        while i < self.candidates.len()
            invariant
                0 <= i <= self.candidates@.len(),
                match best {
                    Option::None => forall|t: int|
                        0 <= t < i ==> !spec_alive(
                            members@,
                            (#[trigger] self.candidates@[t]).member,
                        ),
                    Option::Some(b) => {
                        &&& self.candidates@.contains(b)
                        &&& spec_alive(members@, b.member)
                        &&& forall|t: int|
                            0 <= t < i && spec_alive(
                                members@,
                                (#[trigger] self.candidates@[t]).member,
                            ) ==> leads(b, self.candidates@[t])
                    },
                },
            decreases self.candidates@.len() - i,
        {
            let c = self.candidates[i];
            let alive = match members.get(c.member) {
                Option::Some(m) => m.liveness == Liveness::Alive,
                Option::None => false,
            };
            if alive {
                best = match best {
                    Option::None => Option::Some(c),
                    Option::Some(b) => {
                        if c.suitability > b.suitability || (c.suitability == b.suitability
                            && c.member < b.member) {
                            Option::Some(c)
                        } else {
                            Option::Some(b)
                        }
                    },
                };
            }
            i += 1;
        }
        proof {
            if best is Some {
                let b = best->0;
                assert forall|c: Candidate|
                    self.candidates@.contains(c) && spec_alive(members@, c.member) implies leads(
                    b,
                    c,
                ) by {
                    let w = choose|w: int|
                        0 <= w < self.candidates@.len() && self.candidates@[w] == c;
                    assert(leads(b, self.candidates@[w]));
                }
            } else {
                assert forall|c: Candidate|
                    self.candidates@.contains(c) implies !spec_alive(members@, c.member) by {
                    let w = choose|w: int|
                        0 <= w < self.candidates@.len() && self.candidates@[w] == c;
                }
            }
        }
        best
    }

    /// One evaluation step of the election state machine.
    ///
    /// With no Alive candidate the record enters NoQuorum. Otherwise the
    /// unique leader is computed; if it is already the announced winner
    /// of a Finished record nothing happens, else the record finishes on
    /// the new winner with a bumped term and emits an Election rumor so
    /// other observers can tell the fresh outcome from stale ones.
    pub fn evaluate(&mut self, members: &MemberList) -> (emit: Option<Rumor>)
        requires
            old(self).wf(),
            old(self).term < u64::MAX,
        ensures
            final(self).wf(),
            evaluation_step(*old(self), *final(self), members@, emit),
    {
        match self.best_candidate(members) {
            Option::None => {
                self.status = ElectionStatus::NoQuorum;
                self.winner = Option::None;
                Option::None
            },
            Option::Some(w) => {
                proof {
                    let w2 = choose|w2: Candidate|
                        is_winner(old(self).candidates(), members@, w2);
                    lemma_winner_unique(
                        old(self).candidates(),
                        old(self).candidates(),
                        members@,
                        w,
                        w2,
                    );
                }
                let already = match self.winner {
                    Option::Some(id) => id == w.member,
                    Option::None => false,
                };
                if already && self.status == ElectionStatus::Finished {
                    Option::None
                } else {
                    self.term = self.term + 1;
                    self.status = ElectionStatus::Finished;
                    self.winner = Option::Some(w.member);
                    Option::Some(
                        Rumor {
                            stamp: VersionStamp { epoch: self.term, seq: 0 },
                            body: RumorBody::Election {
                                group: self.group,
                                term: self.term,
                                winner: w.member,
                                suitability: w.suitability,
                            },
                        },
                    )
                }
            },
        }
    }
}

/// What one evaluation does to a record under a membership view: with
/// no Alive candidate it enters NoQuorum; with a unique leader it stays
/// put if that leader is already the announced winner of a Finished
/// record, and otherwise finishes on the leader under a bumped term,
/// emitting the Election rumor that announces it.
pub open spec fn evaluation_step(
    pre: ElectionRecord,
    post: ElectionRecord,
    m: Map<u64, Member>,
    emit: Option<Rumor>,
) -> bool {
    &&& post.group == pre.group
    &&& post.candidates() == pre.candidates()
    &&& (post.term == pre.term || (post.term == pre.term + 1 && match emit {
        Option::Some(em) => match em.body {
            RumorBody::Election { group: g, .. } => g == pre.group,
            _ => false,
        },
        Option::None => false,
    }))
    &&& ((forall|c: Candidate| pre.candidates().contains(c) ==> !spec_alive(m, c.member)) ==> {
        &&& post.status == ElectionStatus::NoQuorum
        &&& post.winner.is_none()
        &&& post.term == pre.term
        &&& emit.is_none()
    })
    &&& ((exists|w: Candidate| is_winner(pre.candidates(), m, w)) ==> {
        let w = choose|w: Candidate| is_winner(pre.candidates(), m, w);
        if pre.status == ElectionStatus::Finished && pre.winner == Option::Some(w.member) {
            post == pre && emit.is_none()
        } else {
            &&& post.status == ElectionStatus::Finished
            &&& post.winner == Option::Some(w.member)
            &&& post.term == pre.term + 1
            &&& emit == Option::Some(
                Rumor {
                    stamp: VersionStamp { epoch: (pre.term + 1) as u64, seq: 0 },
                    body: RumorBody::Election {
                        group: pre.group,
                        term: (pre.term + 1) as u64,
                        winner: w.member,
                        suitability: w.suitability,
                    },
                },
            )
        }
    })
}

/// Two independent observers that hold the same set of (candidacy,
/// liveness) facts for a group compute the same winner, even if they
/// hold the candidacies in different orders: the (suitability, smaller
/// id) tie-break makes the winner unique.
pub proof fn lemma_winner_unique(
    c1: Seq<Candidate>,
    c2: Seq<Candidate>,
    m: Map<u64, Member>,
    w1: Candidate,
    w2: Candidate,
)
    requires
        forall|c: Candidate| c1.contains(c) <==> c2.contains(c),
        is_winner(c1, m, w1),
        is_winner(c2, m, w2),
    ensures
        w1 == w2,
{
    assert(c1.contains(w2));
    assert(c2.contains(w1));
    assert(leads(w1, w2));
    assert(leads(w2, w1));
}

} // verus!
