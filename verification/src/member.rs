//! The local view of cluster membership.
//!
//! `MemberList` maps member ids to `Member` records. Entries are created
//! on first-seen gossip about an id and liveness-transitioned by claims
//! (membership rumors); they are never physically removed, so a Confirmed
//! or Departed entry acts as a tombstone that stale rumors cannot undo.

use vstd::prelude::*;
use std::collections::HashMap;
use crate::types::{Liveness, Member};

verus! {

broadcast use vstd::std_specs::hash::group_hash_axioms;

/// The single conflict-resolution rule for membership claims.
///
/// A claim about a member is accepted against the current entry iff:
/// - no entry exists yet (first-seen gossip creates it); or
/// - the current entry is Departed: only the member itself can speak
///   again, with a strictly higher incarnation, and only to come back
///   Alive or to re-announce its departure — Suspect and Confirmed
///   claims from peers never override a graceful departure; or
/// - the claim carries a strictly higher incarnation; or
/// - it carries the same incarnation and a strictly worse liveness
///   (Alive < Suspect < Confirmed < Departed).
///
/// Anything else is stale and is silently discarded.
pub open spec fn accepts_claim(current: Option<Member>, claim: Member) -> bool {
    match current {
        Option::None => true,
        Option::Some(cur) => {
            if cur.liveness == Liveness::Departed {
                &&& claim.incarnation > cur.incarnation
                &&& (claim.liveness == Liveness::Alive || claim.liveness == Liveness::Departed)
            } else if claim.incarnation > cur.incarnation {
                true
            } else if claim.incarnation == cur.incarnation {
                claim.liveness.rank() > cur.liveness.rank()
            } else {
                false
            }
        },
    }
}

/// Membership view of the cluster, exclusively owned by the failure
/// detector; readers get immutable lookups and id listings.
pub struct MemberList {
    entries: HashMap<u64, Member>,
    ids: Vec<u64>,
}

impl View for MemberList {
    type V = Map<u64, Member>;

    closed spec fn view(&self) -> Map<u64, Member> {
        self.entries@
    }
}

impl MemberList {
    /// Well-formedness: the id index lists exactly the keys of the map,
    /// and every entry is stored under its own id.
    pub closed spec fn wf(&self) -> bool {
        &&& forall|i: int|
            0 <= i < self.ids@.len() ==> self.entries@.contains_key(#[trigger] self.ids@[i])
        &&& forall|k: u64| #[trigger] self.entries@.contains_key(k) ==> self.ids@.contains(k)
        &&& forall|k: u64|
            self.entries@.contains_key(k) ==> (#[trigger] self.entries@[k]).id == k
        &&& self.ids@.no_duplicates()
    }

    /// The current entry for an id, as the merge rule sees it.
    pub open spec fn spec_get(&self, id: u64) -> Option<Member> {
        if self@.contains_key(id) {
            Option::Some(self@[id])
        } else {
            Option::None
        }
    }

    /// Every entry is stored under its own id.
    pub proof fn lemma_entry_id(&self, id: u64)
        requires
            self.wf(),
            self@.contains_key(id),
        ensures
            self@[id].id == id,
    {
    }

    pub fn new() -> (r: MemberList)
        ensures
            r.wf(),
            r@ == Map::<u64, Member>::empty(),
    {
        MemberList { entries: HashMap::new(), ids: Vec::new() }
    }

    pub fn len(&self) -> (n: usize)
        ensures
            n == self@.len(),
    {
        self.entries.len()
    }

    pub fn get(&self, id: u64) -> (r: Option<&Member>)
        ensures
            match r {
                Option::Some(m) => self@.contains_key(id) && *m == self@[id],
                Option::None => !self@.contains_key(id),
            },
    {
        self.entries.get(&id)
    }

    /// Applies a membership claim under the precedence rule; returns
    /// whether the view actually changed (a discarded stale claim is
    /// normal steady-state behaviour, not an error).
    pub fn apply(&mut self, claim: Member) -> (changed: bool)
        requires
            old(self).wf(),
        ensures
            final(self).wf(),
            changed == accepts_claim(old(self).spec_get(claim.id), claim),
            changed ==> final(self)@ == old(self)@.insert(claim.id, claim),
            !changed ==> final(self)@ == old(self)@,
    {
        let existed = self.entries.contains_key(&claim.id);
        let accepted: bool;
        if !existed {
            accepted = true;
        } else {
            let cur = self.entries.get(&claim.id).unwrap();
            accepted = claim_beats(cur, &claim);
        }
        if accepted {
            self.entries.insert(claim.id, claim);
            if !existed {
                self.ids.push(claim.id);
            }
            proof {
                assert forall|k: u64| #[trigger] self.entries@.contains_key(k) implies self
                    .ids@
                    .contains(k) by {
                    if k == claim.id {
                        if !existed {
                            assert(self.ids@[self.ids@.len() - 1] == k);
                        }
                    } else {
                        let i = choose|i: int|
                            0 <= i < old(self).ids@.len() && old(self).ids@[i] == k;
                        assert(self.ids@[i] == k);
                    }
                }
                if !existed {
                    assert forall|a: int, b: int|
                        0 <= a < self.ids@.len() && 0 <= b < self.ids@.len() && a != b implies self
                        .ids@[a] != self.ids@[b] by {
                        if a == self.ids@.len() - 1 {
                            assert(old(self).entries@.contains_key(old(self).ids@[b]));
                        } else if b == self.ids@.len() - 1 {
                            assert(old(self).entries@.contains_key(old(self).ids@[a]));
                        }
                    }
                    assert(self.ids@.no_duplicates());
                }
            }
        }
        accepted
    }

    /// All ids currently Alive, excluding one id (the local member never
    /// gossips to itself). Sound and complete with respect to the view.
    pub fn alive_peers(&self, excluding: u64) -> (r: Vec<u64>)
        requires
            self.wf(),
        ensures
            forall|i: int|
                0 <= i < r@.len() ==> {
                    &&& self@.contains_key(#[trigger] r@[i])
                    &&& self@[r@[i]].liveness == Liveness::Alive
                    &&& r@[i] != excluding
                },
            forall|k: u64|
                #[trigger] self@.contains_key(k) && self@[k].liveness == Liveness::Alive && k
                    != excluding ==> r@.contains(k),
            r@.no_duplicates(),
    {
        let mut r: Vec<u64> = Vec::new();
        let mut j: usize = 0;
        while j < self.ids.len()
            invariant
                self.wf(),
                0 <= j <= self.ids@.len(),
                r@.no_duplicates(),
                forall|a: int|
                    0 <= a < r@.len() ==> self.ids@.take(j as int).contains(#[trigger] r@[a]),
                forall|i: int|
                    0 <= i < r@.len() ==> {
                        &&& self@.contains_key(#[trigger] r@[i])
                        &&& self@[r@[i]].liveness == Liveness::Alive
                        &&& r@[i] != excluding
                    },
                forall|t: int|
                    0 <= t < j && self@[#[trigger] self.ids@[t]].liveness == Liveness::Alive
                        && self.ids@[t] != excluding ==> r@.contains(self.ids@[t]),
            decreases self.ids@.len() - j,
        {
            let id = self.ids[j];
            let m = self.entries.get(&id).unwrap();
            if m.liveness == Liveness::Alive && id != excluding {
                let ghost old_r = r@;
                r.push(id);
                proof {
                    assert(self.ids@.take(j as int + 1)[j as int] == id);
                    assert forall|a: int|
                        0 <= a < r@.len() implies self.ids@.take(j as int + 1).contains(
                        #[trigger] r@[a],
                    ) by {
                        if a < old_r.len() {
                            let w = choose|w: int|
                                0 <= w < j && self.ids@.take(j as int)[w] == r@[a];
                            assert(self.ids@.take(j as int + 1)[w] == r@[a]);
                        }
                    }
                    assert(!old_r.contains(id)) by {
                        if old_r.contains(id) {
                            let a = choose|a: int| 0 <= a < old_r.len() && old_r[a] == id;
                            let w = choose|w: int|
                                0 <= w < j && self.ids@.take(j as int)[w] == id;
                            assert(self.ids@[w] == id && self.ids@[j as int] == id);
                        }
                    }
                    assert forall|a: int, b: int|
                        0 <= a < r@.len() && 0 <= b < r@.len() && a != b implies r@[a]
                        != r@[b] by {
                        if a == r@.len() - 1 {
                            assert(old_r[b] == r@[b]);
                        } else if b == r@.len() - 1 {
                            assert(old_r[a] == r@[a]);
                        }
                    }
                    assert(r@.no_duplicates());
                    assert forall|t: int|
                        0 <= t < j + 1 && self@[#[trigger] self.ids@[t]].liveness
                            == Liveness::Alive && self.ids@[t] != excluding implies r@.contains(
                        self.ids@[t],
                    ) by {
                        if t < j {
                            let w = choose|w: int| 0 <= w < old_r.len() && old_r[w] == self.ids@[t];
                            assert(r@[w] == self.ids@[t]);
                        } else {
                            assert(r@[r@.len() - 1] == self.ids@[t]);
                        }
                    }
                }
            } else {
                proof {
                    assert forall|a: int|
                        0 <= a < r@.len() implies self.ids@.take(j as int + 1).contains(
                        #[trigger] r@[a],
                    ) by {
                        let w = choose|w: int| 0 <= w < j && self.ids@.take(j as int)[w] == r@[a];
                        assert(self.ids@.take(j as int + 1)[w] == r@[a]);
                    }
                }
            }
            j += 1;
        }
        proof {
            assert forall|k: u64|
                #[trigger] self@.contains_key(k) && self@[k].liveness == Liveness::Alive && k
                    != excluding implies r@.contains(k) by {
                let t = choose|t: int| 0 <= t < self.ids@.len() && self.ids@[t] == k;
                assert(r@.contains(self.ids@[t]));
            }
        }
        r
    }
}

/// Exec mirror of the liveness precedence rank.
fn rank_of(l: Liveness) -> (r: u8)
    ensures
        r as int == l.rank(),
{
    match l {
        Liveness::Alive => 0,
        Liveness::Suspect => 1,
        Liveness::Confirmed => 2,
        Liveness::Departed => 3,
    }
}

/// Exec mirror of `accepts_claim` against an existing entry.
pub fn claim_beats(cur: &Member, claim: &Member) -> (b: bool)
    ensures
        b == accepts_claim(Option::Some(*cur), *claim),
{
    if cur.liveness == Liveness::Departed {
        claim.incarnation > cur.incarnation && (claim.liveness == Liveness::Alive
            || claim.liveness == Liveness::Departed)
    } else if claim.incarnation > cur.incarnation {
        true
    } else if claim.incarnation == cur.incarnation {
        rank_of(claim.liveness) > rank_of(cur.liveness)
    } else {
        false
    }
}

/// A member that gracefully departed is never resurrected to Alive by a
/// delayed or replayed membership claim carrying an incarnation no higher
/// than the one it departed with.
pub proof fn lemma_departed_not_resurrected(cur: Member, claim: Member)
    requires
        cur.liveness == Liveness::Departed,
        claim.liveness == Liveness::Alive,
        claim.incarnation <= cur.incarnation,
    ensures
        !accepts_claim(Option::Some(cur), claim),
{
}

/// A Confirmed (tombstoned) entry rejects a replayed stale Alive claim
/// with an old incarnation, while a genuinely new Alive claim with a
/// higher incarnation than any seen is accepted and the member rejoins.
pub proof fn lemma_tombstone_replay(cur: Member, claim: Member)
    requires
        cur.liveness == Liveness::Confirmed,
        claim.liveness == Liveness::Alive,
    ensures
        claim.incarnation <= cur.incarnation ==> !accepts_claim(Option::Some(cur), claim),
        claim.incarnation > cur.incarnation ==> accepts_claim(Option::Some(cur), claim),
{
}

} // verus!
