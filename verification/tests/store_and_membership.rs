//! Order- and duplication-independence of the rumor store, and the
//! membership precedence rules (tombstones, departures, rejoin).

use butterfly::member::MemberList;
use butterfly::rumor::{Rumor, RumorBody, VersionStamp};
use butterfly::store::RumorStore;
use butterfly::types::{Liveness, Member};

fn service_rumor(group: u64, epoch: u64, config: &[u8]) -> Rumor {
    Rumor {
        stamp: VersionStamp { epoch, seq: 0 },
        body: RumorBody::Service {
            group,
            originator: 1,
            config: config.to_vec(),
        },
    }
}

fn member(id: u64, incarnation: u64, liveness: Liveness) -> Member {
    Member {
        id,
        address: 0x7f00_0001,
        swim_port: 6000,
        gossip_port: 7000,
        incarnation,
        liveness,
    }
}

#[test]
fn insert_keeps_maximum_stamp() {
    let mut store = RumorStore::new();
    let newer = service_rumor(9, 5, b"new");
    let older = service_rumor(9, 3, b"old");
    let key = newer.stream_key();

    assert!(store.insert(newer));
    assert!(!store.insert(older), "stale rumor must be discarded");
    match store.get(key).unwrap() {
        Rumor { stamp, .. } => assert_eq!(stamp.epoch, 5),
    }
}

#[test]
fn insertion_order_and_duplicates_do_not_matter() {
    let a = service_rumor(1, 2, b"a");
    let b = service_rumor(2, 7, b"b");
    let c = service_rumor(1, 4, b"c");

    let mut one = RumorStore::new();
    one.insert(a.clone());
    one.insert(b.clone());
    one.insert(c.clone());

    let mut two = RumorStore::new();
    two.insert(c.clone());
    two.insert(c.clone());
    two.insert(b.clone());
    two.insert(a.clone());
    two.insert(b.clone());

    assert_eq!(one.len(), 2);
    assert_eq!(two.len(), 2);
    for r in [&b, &c] {
        let k = r.stream_key();
        assert_eq!(one.get(k), two.get(k));
        assert_eq!(one.get(k).unwrap(), r);
    }
}

#[test]
fn gossip_selection_prefers_least_sent_and_respects_cap() {
    let mut store = RumorStore::new();
    let a = service_rumor(1, 1, b"a");
    let b = service_rumor(2, 1, b"b");
    store.insert(a.clone());
    store.insert(b.clone());

    // both fresh: a batch of one takes one of them, twice in a row the
    // least-sent one, so both go out once before anything goes twice
    let first = store.select_for_gossip(1, 3);
    assert_eq!(first.len(), 1);
    let second = store.select_for_gossip(1, 3);
    assert_eq!(second.len(), 1);
    assert_ne!(first[0], second[0], "least-sent rumor is preferred");

    // a cap of 3 allows 3 transmissions of each, and then silence
    let mut total = 2;
    loop {
        let batch = store.select_for_gossip(10, 3);
        if batch.is_empty() {
            break;
        }
        total += batch.len();
    }
    assert_eq!(total, 6, "each of the two rumors goes out exactly cap times");

    // a fresh insertion re-queues its stream
    let c = service_rumor(1, 9, b"refreshed");
    assert!(store.insert(c));
    let batch = store.select_for_gossip(10, 3);
    assert_eq!(batch.len(), 1);
}

#[test]
fn departed_member_is_not_resurrected_by_stale_alive() {
    let mut list = MemberList::new();
    assert!(list.apply(member(7, 4, Liveness::Alive)));
    assert!(list.apply(member(7, 5, Liveness::Departed)));

    // delayed rumors with the departure's incarnation or older change nothing
    assert!(!list.apply(member(7, 5, Liveness::Alive)));
    assert!(!list.apply(member(7, 4, Liveness::Alive)));
    assert!(!list.apply(member(7, 3, Liveness::Alive)));
    assert_eq!(list.get(7).unwrap().liveness, Liveness::Departed);

    // peers cannot override a graceful departure with suspicion either
    assert!(!list.apply(member(7, 6, Liveness::Suspect)));
    assert!(!list.apply(member(7, 6, Liveness::Confirmed)));
    assert_eq!(list.get(7).unwrap().liveness, Liveness::Departed);
}

#[test]
fn tombstone_rejects_replay_but_allows_rejoin() {
    let mut list = MemberList::new();
    assert!(list.apply(member(3, 2, Liveness::Alive)));
    assert!(list.apply(member(3, 2, Liveness::Suspect)));
    assert!(list.apply(member(3, 2, Liveness::Confirmed)));

    // the entry is retained as a tombstone; a replayed stale Alive rumor
    // with an old incarnation is rejected
    assert!(!list.apply(member(3, 2, Liveness::Alive)));
    assert!(!list.apply(member(3, 1, Liveness::Alive)));
    assert_eq!(list.get(3).unwrap().liveness, Liveness::Confirmed);

    // a genuinely new Alive rumor with a higher incarnation rejoins
    assert!(list.apply(member(3, 3, Liveness::Alive)));
    assert_eq!(list.get(3).unwrap().liveness, Liveness::Alive);
    assert_eq!(list.get(3).unwrap().incarnation, 3);
}

#[test]
fn same_incarnation_only_worsens() {
    let mut list = MemberList::new();
    assert!(list.apply(member(1, 1, Liveness::Alive)));
    assert!(list.apply(member(1, 1, Liveness::Suspect)));
    assert!(!list.apply(member(1, 1, Liveness::Alive)), "no downgrade within an incarnation");
    assert!(list.apply(member(1, 2, Liveness::Alive)), "refutation with a higher incarnation");
    assert_eq!(list.get(1).unwrap().liveness, Liveness::Alive);
}

#[test]
fn alive_peers_lists_exactly_the_alive_others() {
    let mut list = MemberList::new();
    list.apply(member(1, 1, Liveness::Alive));
    list.apply(member(2, 1, Liveness::Alive));
    list.apply(member(3, 1, Liveness::Suspect));
    list.apply(member(4, 1, Liveness::Alive));
    let mut peers = list.alive_peers(1);
    peers.sort();
    assert_eq!(peers, vec![2, 4]);
}
