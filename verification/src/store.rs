//! The rumor store: a versioned, mergeable key-value structure holding
//! the last-known rumor of each stream, plus a retransmission counter
//! per rumor for the epidemic disseminator.
//!
//! All mutation funnels through `merge`, the single place that resolves
//! conflicting updates: the rumor with the highest stamp wins, and an
//! incoming rumor whose stamp does not exceed the stored one is silently
//! discarded. `merge` is idempotent and commutative (see the lemmas at
//! the bottom), so replaying or reordering rumors never changes the
//! converged store.

use vstd::prelude::*;
use std::collections::HashMap;
use crate::rumor::{spec_stream_key, stamp_le, stamp_le_exec, Rumor};

verus! {

broadcast use vstd::std_specs::hash::group_hash_axioms;

/// The max-by-stamp merge rule: the only way the store changes.
pub open spec fn merge(m: Map<u128, Rumor>, r: Rumor) -> Map<u128, Rumor> {
    let k = spec_stream_key(r);
    if m.contains_key(k) && stamp_le(r.stamp, m[k].stamp) {
        m
    } else {
        m.insert(k, r)
    }
}

/// Rumor store: one slot per stream, each with a send counter.
pub struct RumorStore {
    entries: HashMap<u128, Rumor>,
    sends: HashMap<u128, u64>,
    keys: Vec<u128>,
}

impl View for RumorStore {
    type V = Map<u128, Rumor>;

    closed spec fn view(&self) -> Map<u128, Rumor> {
        self.entries@
    }
}

impl RumorStore {
    /// How many times each stored rumor has already been pushed.
    pub closed spec fn send_counts(&self) -> Map<u128, u64> {
        self.sends@
    }

    /// Well-formedness: the key index lists exactly the stored streams,
    /// every rumor sits in its own stream's slot, and every stored rumor
    /// has a send counter.
    pub closed spec fn wf(&self) -> bool {
        &&& forall|i: int|
            0 <= i < self.keys@.len() ==> self.entries@.contains_key(#[trigger] self.keys@[i])
        &&& forall|k: u128| #[trigger] self.entries@.contains_key(k) ==> self.keys@.contains(k)
        &&& forall|k: u128|
            self.entries@.contains_key(k) ==> spec_stream_key(#[trigger] self.entries@[k]) == k
        &&& forall|k: u128| #[trigger] self.entries@.contains_key(k) ==> self.sends@.contains_key(k)
        &&& forall|k: u128| #[trigger] self.sends@.contains_key(k) ==> self.entries@.contains_key(k)
    }

    pub fn new() -> (r: RumorStore)
        ensures
            r.wf(),
            r@ == Map::<u128, Rumor>::empty(),
            r.send_counts() == Map::<u128, u64>::empty(),
    {
        RumorStore { entries: HashMap::new(), sends: HashMap::new(), keys: Vec::new() }
    }

    pub fn len(&self) -> (n: usize)
        ensures
            n == self@.len(),
    {
        self.entries.len()
    }

    /// The stored rumor of a stream, if any.
    pub fn get(&self, key: u128) -> (r: Option<&Rumor>)
        ensures
            match r {
                Option::Some(rr) => self@.contains_key(key) && *rr == self@[key],
                Option::None => !self@.contains_key(key),
            },
    {
        self.entries.get(&key)
    }

    /// Applies the max-by-stamp merge rule; returns whether the store
    /// actually changed. A freshly applied rumor has its send counter
    /// reset so it is re-queued for further gossip.
    pub fn insert(&mut self, r: Rumor) -> (applied: bool)
        requires
            old(self).wf(),
        ensures
            final(self).wf(),
            final(self)@ == merge(old(self)@, r),
            applied == !(old(self)@.contains_key(spec_stream_key(r)) && stamp_le(
                r.stamp,
                old(self)@[spec_stream_key(r)].stamp,
            )),
            applied ==> final(self).send_counts() == old(self).send_counts().insert(
                spec_stream_key(r),
                0u64,
            ),
            !applied ==> final(self).send_counts() == old(self).send_counts(),
    {
        let k = r.stream_key();
        let stale = match self.entries.get(&k) {
            Option::Some(existing) => stamp_le_exec(r.stamp, existing.stamp),
            Option::None => false,
        };
        if stale {
            false
        } else {
            let existed = self.entries.contains_key(&k);
            self.entries.insert(k, r);
            self.sends.insert(k, 0);
            if !existed {
                self.keys.push(k);
            }
            proof {
                assert forall|k2: u128| #[trigger] self.entries@.contains_key(k2) implies self
                    .keys@
                    .contains(k2) by {
                    if k2 == k {
                        if !existed {
                            assert(self.keys@[self.keys@.len() - 1] == k2);
                        }
                    } else {
                        let i = choose|i: int|
                            0 <= i < old(self).keys@.len() && old(self).keys@[i] == k2;
                        assert(self.keys@[i] == k2);
                    }
                }
            }
            true
        }
    }

    /// Selects a batch for this tick's gossip push: at most `limit`
    /// rumors whose send counter is still below the retransmission cap,
    /// preferring the rumors pushed the fewest times, and increments the
    /// counter of each selected rumor. Returns the stream keys of the
    /// batch (look the rumors up with `get` to encode them).
    pub fn select_for_gossip(&mut self, limit: usize, cap: u64) -> (sel: Vec<u128>)
        requires
            old(self).wf(),
        ensures
            final(self).wf(),
            final(self)@ == old(self)@,
            sel@.len() <= limit,
            sel@.no_duplicates(),
            forall|i: int|
                0 <= i < sel@.len() ==> {
                    &&& old(self)@.contains_key(#[trigger] sel@[i])
                    &&& old(self).send_counts()[sel@[i]] < cap
                },
            forall|k: u128| #[trigger]
                old(self)@.contains_key(k) ==> final(self).send_counts()[k] as int == old(
                    self,
                ).send_counts()[k] as int + (if sel@.contains(k) {
                    1int
                } else {
                    0int
                }),
            sel@.len() < limit ==> forall|k: u128| #[trigger]
                old(self)@.contains_key(k) && old(self).send_counts()[k] < cap ==> sel@.contains(k),
            forall|i: int, k: u128|
                0 <= i < sel@.len() && #[trigger] old(self)@.contains_key(k) && old(
                    self,
                ).send_counts()[k] < cap && !sel@.contains(k) ==> old(self).send_counts()[
                    #[trigger] sel@[i]
                ] <= old(self).send_counts()[k],
    {
        let ghost old_sends = self.sends@;
        let mut sel: Vec<u128> = Vec::new();
        while sel.len() < limit
            invariant
                self.wf(),
                self.entries@ == old(self).entries@,
                self.keys@ == old(self).keys@,
                sel@.len() <= limit,
                sel@.no_duplicates(),
                forall|i: int|
                    0 <= i < sel@.len() ==> {
                        &&& self.entries@.contains_key(#[trigger] sel@[i])
                        &&& old_sends[sel@[i]] < cap
                    },
                forall|k: u128| #[trigger]
                    self.entries@.contains_key(k) ==> self.sends@[k] as int == old_sends[k] as int
                        + (if sel@.contains(k) {
                        1int
                    } else {
                        0int
                    }),
                forall|i: int, k: u128|
                    0 <= i < sel@.len() && #[trigger] self.entries@.contains_key(k)
                        && old_sends[k] < cap && !sel@.contains(k) ==> old_sends[
                        #[trigger] sel@[i]
                    ] <= old_sends[k],
            ensures
                sel@.len() < limit ==> forall|k: u128| #[trigger]
                    self.entries@.contains_key(k) && old_sends[k] < cap ==> sel@.contains(k),
            decreases limit - sel@.len(),
        {
            // scan for the eligible, not yet selected rumor with the
            // fewest sends
            let mut best: Option<(u128, u64)> = Option::None;
            let mut j: usize = 0;
            while j < self.keys.len()
                invariant
                    self.wf(),
                    self.entries@ == old(self).entries@,
                    self.keys@ == old(self).keys@,
                    0 <= j <= self.keys@.len(),
                    forall|k: u128| #[trigger]
                        self.entries@.contains_key(k) ==> self.sends@[k] as int == old_sends[k]
                            as int + (if sel@.contains(k) {
                            1int
                        } else {
                            0int
                        }),
                    match best {
                        Option::None => forall|t: int|
                            0 <= t < j ==> !(old_sends[#[trigger] self.keys@[t]] < cap
                                && !sel@.contains(self.keys@[t])),
                        Option::Some((bk, bs)) => {
                            &&& self.entries@.contains_key(bk)
                            &&& old_sends[bk] == bs
                            &&& bs < cap
                            &&& !sel@.contains(bk)
                            &&& forall|t: int|
                                0 <= t < j && old_sends[#[trigger] self.keys@[t]] < cap
                                    && !sel@.contains(self.keys@[t]) ==> bs <= old_sends[
                                    self.keys@[t]
                                ]
                        },
                    },
                decreases self.keys@.len() - j,
            {
                let k = self.keys[j];
                let s = *self.sends.get(&k).unwrap();
                if s < cap && !contains_key_vec(&sel, k) {
                    best = match best {
                        Option::None => Option::Some((k, s)),
                        Option::Some((bk, bs)) => if s < bs {
                            Option::Some((k, s))
                        } else {
                            Option::Some((bk, bs))
                        },
                    };
                }
                j += 1;
            }
            match best {
                Option::None => {
                    proof {
                        assert forall|k: u128| #[trigger]
                            self.entries@.contains_key(k) && old_sends[k] < cap implies sel@
                            .contains(k) by {
                            let t = choose|t: int|
                                0 <= t < self.keys@.len() && self.keys@[t] == k;
                            assert(!(old_sends[self.keys@[t]] < cap && !sel@.contains(
                                self.keys@[t],
                            )));
                        }
                    }
                    break ;
                },
                Option::Some((k, s)) => {
                    let ghost prev_sel = sel@;
                    self.sends.insert(k, s + 1);
                    sel.push(k);
                    proof {
                        assert(sel@ == prev_sel.push(k));
                        assert forall|i: int, j2: int|
                            0 <= i < sel@.len() && 0 <= j2 < sel@.len() && i != j2 implies sel@[i]
                            != sel@[j2] by {
                            if i < prev_sel.len() && j2 < prev_sel.len() {
                            } else if i == prev_sel.len() as int {
                                assert(!prev_sel.contains(sel@[i]));
                            } else {
                                assert(!prev_sel.contains(sel@[j2]));
                            }
                        }
                        assert forall|k2: u128| #[trigger]
                            self.entries@.contains_key(k2) implies self.sends@[k2] as int
                            == old_sends[k2] as int + (if sel@.contains(k2) {
                            1int
                        } else {
                            0int
                        }) by {
                            if k2 == k {
                                assert(sel@[sel@.len() - 1] == k2);
                            } else {
                                if prev_sel.contains(k2) {
                                    let w = choose|w: int|
                                        0 <= w < prev_sel.len() && prev_sel[w] == k2;
                                    assert(sel@[w] == k2);
                                } else {
                                    assert forall|w: int|
                                        0 <= w < sel@.len() implies sel@[w] != k2 by {}
                                }
                            }
                        }
                    }
                },
            }
        }
        sel
    }
}

/// Whether a key vector holds a given key.
fn contains_key_vec(v: &Vec<u128>, x: u128) -> (b: bool)
    ensures
        b == v@.contains(x),
{
    let mut i: usize = 0;
    while i < v.len()
        invariant
            0 <= i <= v@.len(),
            forall|t: int| 0 <= t < i ==> v@[t] != x,
        decreases v@.len() - i,
    {
        if v[i] == x {
            return true;
        }
        i += 1;
    }
    false
}

/// A whole delivery history, applied in order through the merge rule.
pub open spec fn apply_all(m: Map<u128, Rumor>, rs: Seq<Rumor>) -> Map<u128, Rumor>
    decreases rs.len(),
{
    if rs.len() == 0 {
        m
    } else {
        merge(apply_all(m, rs.drop_last()), rs.last())
    }
}

/// After a delivery history, every rumor it contains has left its
/// stream's slot at a stamp at least its own: later deliveries only
/// raise stamps, never lower them.
pub proof fn lemma_apply_all_monotone(m: Map<u128, Rumor>, rs: Seq<Rumor>, r: Rumor)
    requires
        rs.contains(r),
    ensures
        apply_all(m, rs).contains_key(spec_stream_key(r)),
        stamp_le(r.stamp, apply_all(m, rs)[spec_stream_key(r)].stamp),
    decreases rs.len(),
{
    let k = spec_stream_key(r);
    let head = apply_all(m, rs.drop_last());
    let last = rs.last();
    if rs.drop_last().contains(r) {
        lemma_apply_all_monotone(m, rs.drop_last(), r);
    } else {
        let i = choose|i: int| 0 <= i < rs.len() && rs[i] == r;
        if i < rs.len() - 1 {
            assert(rs.drop_last()[i] == r);
            assert(rs.drop_last().contains(r));
        }
        assert(rs[rs.len() - 1] == r);
    }
}

/// A replayed rumor is absorbed: re-delivering any rumor of a history
/// to the resulting store changes nothing.
pub proof fn lemma_duplicate_delivery_absorbed(m: Map<u128, Rumor>, rs: Seq<Rumor>, r: Rumor)
    requires
        rs.contains(r),
    ensures
        merge(apply_all(m, rs), r) == apply_all(m, rs),
{
    lemma_apply_all_monotone(m, rs, r);
}

/// Rumor streams are totally ordered by their stamps: in a coherent
/// history, two rumors of one stream with the same stamp are the same
/// rumor.
pub open spec fn coherent(s: Seq<Rumor>) -> bool {
    forall|a: Rumor, b: Rumor|
        #[trigger] s.contains(a) && #[trigger] s.contains(b) && spec_stream_key(a)
            == spec_stream_key(b) && a.stamp == b.stamp ==> a == b
}

/// What `remove` keeps: everything but (one occurrence of) the element
/// at the removed index.
proof fn lemma_remove_contains(s: Seq<Rumor>, i: int)
    requires
        0 <= i < s.len(),
    ensures
        forall|x: Rumor| #[trigger] s.remove(i).contains(x) ==> s.contains(x),
        forall|x: Rumor| s.contains(x) && x != s[i] ==> #[trigger] s.remove(i).contains(x),
{
    s.remove_ensures(i);
    assert forall|x: Rumor| #[trigger] s.remove(i).contains(x) implies s.contains(x) by {
        let w = choose|w: int| 0 <= w < s.remove(i).len() && s.remove(i)[w] == x;
        if w < i {
            assert(s[w] == x);
        } else {
            assert(s[w + 1] == x);
        }
    }
    assert forall|x: Rumor| s.contains(x) && x != s[i] implies #[trigger] s.remove(i).contains(
        x,
    ) by {
        let w = choose|w: int| 0 <= w < s.len() && s[w] == x;
        if w < i {
            assert(s.remove(i)[w] == x);
        } else {
            assert(s.remove(i)[w - 1] == x);
        }
    }
}

/// In a coherent history, any one delivery can be commuted to the end
/// without changing the resulting store.
proof fn lemma_apply_all_commute_to_end(m: Map<u128, Rumor>, s: Seq<Rumor>, i: int)
    requires
        0 <= i < s.len(),
        coherent(s),
    ensures
        apply_all(m, s) == merge(apply_all(m, s.remove(i)), s[i]),
    decreases s.len(),
{
    s.remove_ensures(i);
    if i == s.len() - 1 {
        assert(s.remove(i) =~= s.drop_last());
    } else {
        let sp = s.drop_last();
        assert forall|x: Rumor| #[trigger] sp.contains(x) implies s.contains(x) by {
            let w = choose|w: int| 0 <= w < sp.len() && sp[w] == x;
            assert(s[w] == x);
        }
        assert(coherent(sp));
        lemma_apply_all_commute_to_end(m, sp, i);
        assert(s.contains(s[i]));
        assert(s.contains(s.last()));
        lemma_merge_commutes(apply_all(m, sp.remove(i)), s[i], s.last());
        assert(s.remove(i).drop_last() =~= sp.remove(i));
        assert(s.remove(i).last() == s.last());
    }
}

/// The convergence guarantee of the store: any two delivery histories
/// that carry the same set of rumors — whatever their order, however
/// often each rumor is replayed — leave any starting store in the same
/// final state.
pub proof fn theorem_store_convergence(m: Map<u128, Rumor>, s1: Seq<Rumor>, s2: Seq<Rumor>)
    requires
        coherent(s1),
        forall|r: Rumor|
            #![trigger s1.contains(r)]
            #![trigger s2.contains(r)]
            s1.contains(r) <==> s2.contains(r),
    ensures
        apply_all(m, s1) == apply_all(m, s2),
    decreases s1.len() + s2.len(),
{
    if s2.len() == 0 {
        if s1.len() > 0 {
            assert(s1.contains(s1[0]));
            assert(false);
        }
    } else {
        let r = s2.last();
        let s2p = s2.drop_last();
        assert(s2.contains(r));
        assert forall|x: Rumor| #[trigger] s2p.contains(x) implies s2.contains(x) by {
            let w = choose|w: int| 0 <= w < s2p.len() && s2p[w] == x;
            assert(s2[w] == x);
        }
        if s2p.contains(r) {
            assert forall|x: Rumor|
                #![trigger s1.contains(x)]
                #![trigger s2p.contains(x)]
                s1.contains(x) <==> s2p.contains(x) by {
                if s1.contains(x) {
                    assert(s2.contains(x));
                    let w = choose|w: int| 0 <= w < s2.len() && s2[w] == x;
                    if w == s2.len() - 1 {
                        assert(x == r);
                    } else {
                        assert(s2p[w] == x);
                    }
                }
            }
            theorem_store_convergence(m, s1, s2p);
            lemma_duplicate_delivery_absorbed(m, s2p, r);
        } else {
            assert(s1.contains(r));
            let i = choose|i: int| 0 <= i < s1.len() && s1[i] == r;
            let s1p = s1.remove(i);
            lemma_apply_all_commute_to_end(m, s1, i);
            lemma_remove_contains(s1, i);
            assert(coherent(s1p));
            if s1p.contains(r) {
                assert forall|x: Rumor|
                    #![trigger s1p.contains(x)]
                    #![trigger s2.contains(x)]
                    s1p.contains(x) <==> s2.contains(x) by {
                    if s1p.contains(x) {
                        assert(s1.contains(x));
                    }
                    if s2.contains(x) {
                        if x == r {
                            assert(s1p.contains(r));
                        } else {
                            assert(s1.contains(x));
                            assert(s1p.contains(x));
                        }
                    }
                }
                theorem_store_convergence(m, s1p, s2);
                lemma_merge_idempotent(apply_all(m, s2p), r);
            } else {
                assert forall|x: Rumor|
                    #![trigger s1p.contains(x)]
                    #![trigger s2p.contains(x)]
                    s1p.contains(x) <==> s2p.contains(x) by {
                    if s1p.contains(x) {
                        assert(s1.contains(x));
                        assert(s2.contains(x));
                        assert(x != r);
                        let w = choose|w: int| 0 <= w < s2.len() && s2[w] == x;
                        assert(w != s2.len() - 1);
                        assert(s2p[w] == x);
                    }
                    if s2p.contains(x) {
                        assert(s2.contains(x));
                        assert(s1.contains(x));
                        assert(x != r);
                        assert(s1p.contains(x));
                    }
                }
                theorem_store_convergence(m, s1p, s2p);
            }
        }
    }
}

/// Merging the same rumor twice is the same as merging it once: rumor
/// application is idempotent, so duplicated deliveries never change the
/// converged store.
pub proof fn lemma_merge_idempotent(m: Map<u128, Rumor>, r: Rumor)
    ensures
        merge(merge(m, r), r) == merge(m, r),
{
    let k = spec_stream_key(r);
    if !(m.contains_key(k) && stamp_le(r.stamp, m[k].stamp)) {
        assert(merge(m, r) == m.insert(k, r));
        assert(merge(m, r).contains_key(k));
    }
}

/// Merging two rumors commutes: rumor application is order-independent,
/// provided rumors of one stream are totally ordered by their stamps
/// (two rumors of the same stream with the same stamp are the same
/// rumor). Together with idempotence this gives the convergence
/// guarantee: any delivery order and any amount of duplication of the
/// same set of rumors leaves every store in the same final state.
pub proof fn lemma_merge_commutes(m: Map<u128, Rumor>, a: Rumor, b: Rumor)
    requires
        spec_stream_key(a) == spec_stream_key(b) && a.stamp == b.stamp ==> a == b,
    ensures
        merge(merge(m, a), b) == merge(merge(m, b), a),
{
    let ka = spec_stream_key(a);
    let kb = spec_stream_key(b);
    if ka != kb {
        assert(merge(merge(m, a), b) =~= merge(merge(m, b), a));
    } else if a.stamp == b.stamp {
        assert(a == b);
        assert(merge(merge(m, a), b) =~= merge(merge(m, b), a));
    } else {
        assert(stamp_le(a.stamp, b.stamp) || stamp_le(b.stamp, a.stamp));
        assert(merge(merge(m, a), b) =~= merge(merge(m, b), a));
    }
}

} // verus!
