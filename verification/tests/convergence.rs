//! Epidemic convergence: a rumor inserted at one member reaches every
//! reachable member within a logarithmic number of ticks, and isolated
//! members learn nothing until a path of rumors connects them.

use butterfly::rumor::{Rumor, RumorBody, VersionStamp};
use butterfly::server::{Server, Tunables};
use butterfly::types::{Liveness, Member};

fn member(id: u64) -> Member {
    Member {
        id,
        address: 0x0a00_0000 + id as u32,
        swim_port: 6000,
        gossip_port: 7000,
        incarnation: 1,
        liveness: Liveness::Alive,
    }
}

fn tunables(fanout: usize) -> Tunables {
    Tunables {
        fanout,
        batch_limit: 16,
        retransmit_cap: 64,
        suspicion_ticks: 10,
    }
}

/// Runs one gossip tick on every server and delivers every pushed batch
/// to its peers, through the reachability predicate.
fn gossip_round(servers: &mut Vec<Server>, tick: u64, reachable: impl Fn(u64, u64) -> bool) {
    let ids: Vec<u64> = servers.iter().map(|s| s.me.id).collect();
    let mut deliveries: Vec<(u64, Rumor)> = Vec::new();
    for (idx, server) in servers.iter_mut().enumerate() {
        let actions = server.tick(tick, tick * 31 + idx as u64);
        for peer in &actions.gossip_peers {
            if !reachable(server.me.id, *peer) {
                continue; // a partition: the datagram is simply lost
            }
            for key in &actions.gossip_keys {
                if let Some(rumor) = server.store.get(*key) {
                    deliveries.push((*peer, rumor.clone()));
                }
            }
        }
    }
    for (peer, rumor) in deliveries {
        let idx = ids.iter().position(|id| *id == peer).unwrap();
        servers[idx].handle_rumor(rumor);
    }
}

#[test]
fn rumor_reaches_all_members_within_logarithmic_ticks() {
    let n: u64 = 12;
    let fanout = 3;
    let mut servers: Vec<Server> = (1..=n).map(|id| Server::new(member(id), tunables(fanout))).collect();

    // membership has already converged: everyone knows everyone
    for id in 1..=n {
        for server in servers.iter_mut() {
            server.handle_rumor(butterfly::rumor::membership_rumor(member(id)));
        }
    }

    // one member learns one new fact
    let fact = Rumor {
        stamp: VersionStamp { epoch: 1, seq: 0 },
        body: RumorBody::Service { group: 99, originator: 1, config: b"v1".to_vec() },
    };
    let key = fact.stream_key();
    assert!(servers[0].handle_rumor(fact));

    // expected O(log n / log fanout) rounds; allow a comfortable margin
    let bound = 8;
    let mut converged_at = None;
    for tick in 0..bound {
        if servers.iter().all(|s| s.store.get(key).is_some()) {
            converged_at = Some(tick);
            break;
        }
        gossip_round(&mut servers, tick, |_, _| true);
    }
    if converged_at.is_none() && servers.iter().all(|s| s.store.get(key).is_some()) {
        converged_at = Some(bound);
    }
    assert!(
        converged_at.is_some(),
        "the rumor did not reach every member within {} ticks",
        bound
    );
}

#[test]
fn isolated_member_stays_unknown_until_connected() {
    // M1, M2, M3 start isolated, knowing only themselves
    let mut servers: Vec<Server> =
        (1..=3).map(|id| Server::new(member(id), tunables(2))).collect();

    // M1 learns of M2 via a seed rumor and they gossip for 5 ticks,
    // while M3 is unreachable
    servers[0].handle_rumor(butterfly::rumor::membership_rumor(member(2)));
    for tick in 0..5 {
        gossip_round(&mut servers, tick, |from, to| {
            (from == 1 || from == 2) && (to == 1 || to == 2)
        });
    }
    assert!(servers[0].members.get(3).is_none(), "M3 must stay unknown to M1");
    assert!(servers[0].members.get(2).is_some(), "M1 knows M2 from the seed");
    assert!(servers[1].members.get(1).is_some(), "M2 learned of M1 by gossip");

    // now a path of rumors connects them: M3 learns of M1 and everyone
    // can reach everyone; within the convergence bound all three agree
    servers[2].handle_rumor(butterfly::rumor::membership_rumor(member(1)));
    for tick in 5..15 {
        gossip_round(&mut servers, tick, |_, _| true);
    }
    for server in &servers {
        for id in 1..=3 {
            let entry = server.members.get(id).expect("every member is known to everyone");
            assert_eq!(entry.liveness, Liveness::Alive);
        }
    }
}
