//! Shape validation of the three gateway views, on documents parsed
//! from JSON text.

use butterfly::json::{
    census_view_is_valid, get_field, gossip_view_is_valid, service_from_services,
    services_view_is_valid, JsonField, JsonValue,
};

fn to_json(v: &serde_json::Value) -> JsonValue {
    match v {
        serde_json::Value::Null => JsonValue::Null,
        serde_json::Value::Bool(b) => JsonValue::Boolean(*b),
        serde_json::Value::Number(n) => JsonValue::Number(n.as_i64().unwrap_or(0)),
        serde_json::Value::String(s) => JsonValue::Text(s.clone()),
        serde_json::Value::Array(items) => JsonValue::List(items.iter().map(to_json).collect()),
        serde_json::Value::Object(fields) => JsonValue::Object(
            fields
                .iter()
                .map(|(k, val)| JsonField {
                    name: k.clone(),
                    value: to_json(val),
                })
                .collect(),
        ),
    }
}

fn parse(text: &str) -> JsonValue {
    let v: serde_json::Value = serde_json::from_str(text).expect("test document must parse");
    to_json(&v)
}

#[test]
fn trivial_census_failure() {
    let doc = parse(r#"{"census_groups": {}, "changed": false, "last_election_counter": "narf"}"#);
    assert!(
        !census_view_is_valid(&doc),
        "Expected schema validation to fail, but it succeeded"
    );
}

#[test]
fn trivial_butterfly_failure() {
    let doc = parse(
        r#"{"departure": {}, "election": {}, "member": {}, "service": false, "service_file": []}"#,
    );
    assert!(
        !gossip_view_is_valid(&doc),
        "Expected schema validation to fail, but it succeeded"
    );
}

#[test]
fn trivial_services_failure() {
    let doc = parse(r#"[{"lulz": true}]"#);
    assert!(
        !services_view_is_valid(&doc),
        "Expected schema validation to fail, but it succeeded"
    );
}

#[test]
fn well_shaped_census_is_valid() {
    let doc = parse(
        r#"{"census_groups": {}, "changed": false,
            "last_election_counter": 3, "last_membership_counter": 14}"#,
    );
    assert!(census_view_is_valid(&doc));
}

#[test]
fn well_shaped_butterfly_is_valid() {
    let doc = parse(
        r#"{"member": {}, "service": {}, "election": {}, "departure": {}, "service_file": {}}"#,
    );
    assert!(gossip_view_is_valid(&doc));
}

#[test]
fn well_shaped_services_are_valid() {
    let doc = parse(
        r#"[{"service_group": "redis.default", "cfg": {"port": 6379}, "health_check": "OK"},
            {"service_group": "web.default", "cfg": null, "health_check": "CRITICAL"}]"#,
    );
    assert!(services_view_is_valid(&doc));
}

#[test]
fn census_counter_must_not_be_negative() {
    let doc = parse(
        r#"{"census_groups": {}, "changed": true,
            "last_election_counter": -1, "last_membership_counter": 0}"#,
    );
    assert!(!census_view_is_valid(&doc));
}

#[test]
fn finds_service_by_group() {
    let doc = parse(
        r#"[{"service_group": "redis.default", "cfg": {}, "health_check": "OK"},
            {"service_group": "web.default", "cfg": {}, "health_check": "OK"}]"#,
    );
    let wanted = String::from("web.default");
    let found = service_from_services(&wanted, &doc).expect("entry should be found");
    match found {
        JsonValue::Object(fields) => {
            let name = String::from("service_group");
            match get_field(fields, &name) {
                Some(JsonValue::Text(s)) => assert_eq!(s, "web.default"),
                other => panic!("unexpected service_group field: {:?}", other),
            }
        }
        other => panic!("unexpected entry: {:?}", other),
    }
    let missing = String::from("nope.default");
    assert!(service_from_services(&missing, &doc).is_none());
}
