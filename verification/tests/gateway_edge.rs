//! Gateway-edge decisions: bearer authorization, health rendering,
//! service-group naming and the cache-key-path default.

use butterfly::gateway::{
    authorize, cache_key_path_is_default, health_status_label, ServiceGroup,
};
use butterfly::server::{Server, Tunables};
use butterfly::types::{HealthCheckResult, Liveness, Member};

#[test]
fn no_token_means_unauthenticated_mode() {
    assert!(authorize(&None, &None));
    assert!(authorize(&None, &Some(String::from("Bearer whatever"))));
}

#[test]
fn bearer_token_must_match_exactly() {
    let token = Some(String::from("sekrit"));
    assert!(authorize(&token, &Some(String::from("Bearer sekrit"))));
    assert!(!authorize(&token, &None));
    assert!(!authorize(&token, &Some(String::from("Bearer wrong"))));
    assert!(!authorize(&token, &Some(String::from("Basic sekrit"))));
    assert!(!authorize(&token, &Some(String::from("sekrit"))));
    assert!(!authorize(&token, &Some(String::from("Bearer sekrit2"))));
    assert!(!authorize(&token, &Some(String::from(""))));
}

#[test]
fn health_results_render_and_map_to_status_codes() {
    assert_eq!(health_status_label(HealthCheckResult::Okay), "OK");
    assert_eq!(health_status_label(HealthCheckResult::Warning), "WARNING");
    assert_eq!(health_status_label(HealthCheckResult::Critical), "CRITICAL");
    assert_eq!(health_status_label(HealthCheckResult::Unknown), "UNKNOWN");

    assert_eq!(HealthCheckResult::Okay.http_status(), 200);
    assert_eq!(HealthCheckResult::Warning.http_status(), 200);
    assert_eq!(HealthCheckResult::Critical.http_status(), 503);
    assert_eq!(HealthCheckResult::Unknown.http_status(), 500);
}

#[test]
fn service_groups_validate_and_render() {
    let sg = ServiceGroup::new(String::from("redis"), String::from("default"), None)
        .expect("plain names are valid");
    assert_eq!(sg.to_text(), "redis.default");

    let sg = ServiceGroup::new(
        String::from("web"),
        String::from("prod"),
        Some(String::from("acme")),
    )
    .expect("an organization is allowed");
    assert_eq!(sg.to_text(), "web.prod@acme");

    assert!(ServiceGroup::new(String::from(""), String::from("default"), None).is_err());
    assert!(ServiceGroup::new(String::from("redis"), String::from("de fault"), None).is_err());
    assert!(ServiceGroup::new(String::from("re.dis"), String::from("default"), None).is_err());
}

#[test]
fn cache_key_path_default_is_the_sentinel() {
    let sentinel = String::from("/hab/cache/keys");
    assert!(cache_key_path_is_default(&String::from("/hab/cache/keys"), &sentinel));
    assert!(!cache_key_path_is_default(&String::from("/tmp/keys"), &sentinel));
    assert!(!cache_key_path_is_default(&String::from(""), &sentinel));
}

#[test]
fn engine_keeps_latest_health_per_group() {
    let me = Member {
        id: 1,
        address: 0,
        swim_port: 1,
        gossip_port: 2,
        incarnation: 1,
        liveness: Liveness::Alive,
    };
    let mut server = Server::new(
        me,
        Tunables { fanout: 2, batch_limit: 8, retransmit_cap: 8, suspicion_ticks: 5 },
    );
    assert_eq!(server.health_of(9), None);
    server.report_health(9, HealthCheckResult::Warning);
    server.report_health(12, HealthCheckResult::Okay);
    server.report_health(9, HealthCheckResult::Critical);
    assert_eq!(server.health_of(9), Some(HealthCheckResult::Critical));
    assert_eq!(server.health_of(12), Some(HealthCheckResult::Okay));
}

#[test]
fn refutation_bumps_only_the_self_incarnation() {
    let me = Member {
        id: 1,
        address: 0,
        swim_port: 1,
        gossip_port: 2,
        incarnation: 1,
        liveness: Liveness::Alive,
    };
    let mut server = Server::new(
        me,
        Tunables { fanout: 2, batch_limit: 8, retransmit_cap: 8, suspicion_ticks: 5 },
    );
    server.refute();
    assert_eq!(server.me.incarnation, 2);
    assert_eq!(server.members.get(1).unwrap().incarnation, 2);
    assert_eq!(server.members.get(1).unwrap().liveness, Liveness::Alive);
}

#[test]
fn bearer_header_splits_on_whitespace() {
    // the header splits on whitespace into exactly `Bearer` + token, so
    // extra or leading whitespace is accepted, as a tokenizer sees it
    let token = Some(String::from("sekrit"));
    assert!(authorize(&token, &Some(String::from("Bearer  sekrit"))));
    assert!(authorize(&token, &Some(String::from("  Bearer\tsekrit  "))));
    assert!(!authorize(&token, &Some(String::from("Bearersekrit"))));
    assert!(!authorize(&token, &Some(String::from("Bearer sekrit extra"))));
    assert!(!authorize(&token, &Some(String::from("Bearer"))));
    // a configured token that holds whitespace can never be presented
    let spaced = Some(String::from("sek rit"));
    assert!(!authorize(&spaced, &Some(String::from("Bearer sek rit"))));
}

#[test]
fn foreign_claims_about_self_are_refuted_not_applied() {
    let me = Member {
        id: 1,
        address: 0,
        swim_port: 1,
        gossip_port: 2,
        incarnation: 1,
        liveness: Liveness::Alive,
    };
    let mut server = Server::new(
        me,
        Tunables { fanout: 2, batch_limit: 8, retransmit_cap: 8, suspicion_ticks: 5 },
    );
    // a peer's Suspect rumor about this agent is answered with a bumped
    // Alive record, never applied
    let suspect_me = Member { liveness: Liveness::Suspect, ..me };
    let applied = server.handle_rumor(butterfly::rumor::membership_rumor(suspect_me));
    assert!(!applied);
    assert_eq!(server.me.incarnation, 2);
    assert_eq!(server.members.get(1).unwrap().liveness, Liveness::Alive);
    assert_eq!(server.members.get(1).unwrap().incarnation, 2);
    // a stale echo of the agent's own record changes nothing
    let echo = Member { incarnation: 1, ..me };
    assert!(!server.handle_rumor(butterfly::rumor::membership_rumor(echo)));
    assert_eq!(server.me.incarnation, 2);
}
