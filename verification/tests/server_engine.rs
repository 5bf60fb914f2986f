//! Engine-level flows: graceful departure across two agents, and
//! candidacy registration through the server.

use butterfly::election::ElectionStatus;
use butterfly::rumor::{membership_rumor, Rumor, RumorBody, VersionStamp};
use butterfly::server::{Server, Tunables};
use butterfly::types::{Liveness, Member};

fn member(id: u64) -> Member {
    Member {
        id,
        address: 0x0a00_0000 + id as u32,
        swim_port: 6000,
        gossip_port: 7000,
        incarnation: 1,
        liveness: Liveness::Alive,
    }
}

fn tunables() -> Tunables {
    Tunables { fanout: 2, batch_limit: 8, retransmit_cap: 8, suspicion_ticks: 5 }
}

#[test]
fn graceful_departure_tombstones_across_agents() {
    let mut leaving = Server::new(member(1), tunables());
    let mut staying = Server::new(member(2), tunables());
    leaving.handle_rumor(membership_rumor(member(2)));
    staying.handle_rumor(membership_rumor(member(1)));

    // the leaving agent announces its own departure and pushes once
    leaving.depart();
    let departure = Rumor {
        stamp: VersionStamp { epoch: 1, seq: 3 },
        body: RumorBody::Departure { member_id: 1, incarnation: 1 },
    };
    let gossiped = leaving
        .store
        .get(departure.stream_key())
        .expect("the departure is queued for gossip")
        .clone();
    assert_eq!(gossiped, departure);

    assert!(staying.handle_rumor(gossiped));
    assert_eq!(staying.members.get(1).unwrap().liveness, Liveness::Departed);

    // a delayed Alive rumor with the old incarnation does not resurrect it
    let stale = membership_rumor(member(1));
    staying.handle_rumor(stale);
    assert_eq!(staying.members.get(1).unwrap().liveness, Liveness::Departed);

    // the departed member never turns up as a gossip or probe target
    let actions = staying.tick(1, 42);
    assert!(!actions.gossip_peers.contains(&1));
    assert_ne!(actions.probe, Some(1));
}

#[test]
fn declared_candidacy_settles_an_election() {
    let mut server = Server::new(member(1), tunables());
    server.handle_rumor(membership_rumor(member(2)));

    server.declare_candidate(40, 1, 5);
    server.declare_candidate(40, 2, 9);

    let rec = server
        .elections
        .iter()
        .find(|r| r.group == 40)
        .expect("a record exists for the group");
    assert_eq!(rec.status, ElectionStatus::Finished);
    assert_eq!(rec.winner, Some(2));

    // the announced outcome is queued for gossip under the group's stream
    let announcement = Rumor {
        stamp: VersionStamp { epoch: rec.term, seq: 0 },
        body: RumorBody::Election { group: 40, term: rec.term, winner: 2, suitability: 9 },
    };
    let stored = server
        .store
        .get(announcement.stream_key())
        .expect("the outcome is queued for gossip");
    assert_eq!(*stored, announcement);
}

#[test]
fn unrefuted_suspicion_is_confirmed_and_gossiped_by_tick() {
    let mut server = Server::new(member(1), tunables());
    server.handle_rumor(membership_rumor(member(2)));
    // the failure detector suspected member 2 at its current incarnation
    server.members.apply(Member { liveness: Liveness::Suspect, ..member(2) });
    server.detector.suspect(2, 1, 3);

    let actions = server.tick(2, 7);
    assert!(actions.confirmed.is_empty(), "the timer has not run out yet");

    let actions = server.tick(3, 7);
    assert_eq!(actions.confirmed, vec![2]);
    assert_eq!(server.members.get(2).unwrap().liveness, Liveness::Confirmed);

    // the confirmation itself is now a membership rumor in the store
    let confirm = membership_rumor(Member { liveness: Liveness::Confirmed, ..member(2) });
    let stored = server.store.get(confirm.stream_key()).unwrap();
    assert_eq!(*stored, confirm);
}
