//! Suspicion lifecycle (refutation beats the timer) and deterministic
//! leader election.

use butterfly::detector::FailureDetector;
use butterfly::election::{Candidate, ElectionRecord, ElectionStatus};
use butterfly::member::MemberList;
use butterfly::types::{Liveness, Member};

fn member(id: u64, incarnation: u64, liveness: Liveness) -> Member {
    Member {
        id,
        address: 0x0a00_0001,
        swim_port: 6000,
        gossip_port: 7000,
        incarnation,
        liveness,
    }
}

#[test]
fn refutation_before_expiry_prevents_confirmation() {
    let mut list = MemberList::new();
    list.apply(member(5, 1, Liveness::Alive));
    list.apply(member(5, 1, Liveness::Suspect));

    let mut detector = FailureDetector::new();
    assert!(detector.suspect(5, 1, 10));

    // the member refutes with a higher incarnation before tick 10
    assert!(list.apply(member(5, 2, Liveness::Alive)));
    assert_eq!(list.get(5).unwrap().liveness, Liveness::Alive);

    // the timer expires: the cycle closes without confirming anyone
    let confirmed = detector.expire_due(10, &list);
    assert!(confirmed.is_empty());
    assert_eq!(list.get(5).unwrap().liveness, Liveness::Alive);

    // and the same cycle can never fire again later
    let confirmed = detector.expire_due(1000, &list);
    assert!(confirmed.is_empty());
}

#[test]
fn unrefuted_suspicion_confirms_on_expiry() {
    let mut list = MemberList::new();
    list.apply(member(5, 1, Liveness::Suspect));

    let mut detector = FailureDetector::new();
    assert!(detector.suspect(5, 1, 10));
    assert!(!detector.suspect(5, 1, 3), "an open cycle is never restamped");

    assert!(detector.expire_due(9, &list).is_empty(), "not due yet");
    let confirmed = detector.expire_due(10, &list);
    assert_eq!(confirmed, vec![5]);
}

#[test]
fn election_is_deterministic_under_ties() {
    // candidates A(id 1, score 5), B(id 2, score 5), C(id 3, score 3),
    // all Alive: the winner is the smaller id among A and B, never C
    let mut list = MemberList::new();
    list.apply(member(1, 1, Liveness::Alive));
    list.apply(member(2, 1, Liveness::Alive));
    list.apply(member(3, 1, Liveness::Alive));

    let mut one = ElectionRecord::new(42);
    one.declare_candidate(1, 5);
    one.declare_candidate(2, 5);
    one.declare_candidate(3, 3);

    // a second observer learns the same facts in another order
    let mut two = ElectionRecord::new(42);
    two.declare_candidate(3, 3);
    two.declare_candidate(2, 5);
    two.declare_candidate(1, 5);

    let w1 = one.best_candidate(&list).unwrap();
    let w2 = two.best_candidate(&list).unwrap();
    assert_eq!(w1, w2);
    assert_eq!(w1, Candidate { member: 1, suitability: 5 });
}

#[test]
fn election_reopens_when_winner_dies() {
    let mut list = MemberList::new();
    list.apply(member(1, 1, Liveness::Alive));
    list.apply(member(2, 1, Liveness::Alive));

    let mut rec = ElectionRecord::new(7);
    rec.declare_candidate(1, 9);
    rec.declare_candidate(2, 4);

    let rumor = rec.evaluate(&list);
    assert!(rumor.is_some(), "a fresh outcome is gossiped");
    assert_eq!(rec.status, ElectionStatus::Finished);
    assert_eq!(rec.winner, Some(1));
    assert_eq!(rec.term, 1);

    // re-evaluating a settled election changes nothing
    assert!(rec.evaluate(&list).is_none());
    assert_eq!(rec.term, 1);

    // the winner is confirmed dead: the next evaluation elects the
    // runner-up under a new term
    list.apply(member(1, 1, Liveness::Suspect));
    list.apply(member(1, 1, Liveness::Confirmed));
    let rumor = rec.evaluate(&list);
    assert!(rumor.is_some());
    assert_eq!(rec.winner, Some(2));
    assert_eq!(rec.term, 2);

    // no candidate alive at all: the record has no quorum
    list.apply(member(2, 1, Liveness::Confirmed));
    assert!(rec.evaluate(&list).is_none());
    assert_eq!(rec.status, ElectionStatus::NoQuorum);
    assert_eq!(rec.winner, None);
}

#[test]
fn higher_candidacy_reopens_finished_election() {
    let mut list = MemberList::new();
    list.apply(member(1, 1, Liveness::Alive));
    list.apply(member(2, 1, Liveness::Alive));

    let mut rec = ElectionRecord::new(7);
    rec.declare_candidate(1, 3);
    rec.evaluate(&list);
    assert_eq!(rec.status, ElectionStatus::Finished);

    assert!(rec.declare_candidate(2, 8));
    assert_eq!(rec.status, ElectionStatus::Running);
    rec.evaluate(&list);
    assert_eq!(rec.winner, Some(2));

    // re-declaring an identical candidacy does not re-open anything
    assert!(!rec.declare_candidate(2, 8));
    assert_eq!(rec.status, ElectionStatus::Finished);
}
