//! A plain model of JSON documents, and the shapes of the three
//! read-only views the reporting gateway serves.
//!
//! The engine exposes snapshots as structured data; the gateway renders
//! them as JSON. The shape checkers below say exactly what a rendered
//! view must look like, so a reader of a snapshot endpoint can be
//! validated without the engine knowing anything about HTTP.

use vstd::prelude::*;

verus! {

/// One member of a JSON object.
#[derive(Debug, PartialEq, Eq)]
pub struct JsonField {
    pub name: String,
    pub value: JsonValue,
}

/// A JSON document. Numbers are modelled as signed integers: every
/// counter and port the views carry is integral.
#[derive(Debug, PartialEq, Eq)]
pub enum JsonValue {
    Null,
    Boolean(bool),
    Number(i64),
    Text(String),
    List(Vec<JsonValue>),
    Object(Vec<JsonField>),
}

/// First-match lookup of a field in an object, by field name.
pub open spec fn spec_lookup(fs: Seq<JsonField>, name: Seq<char>) -> Option<JsonValue>
    decreases fs.len(),
{
    if fs.len() == 0 {
        Option::None
    } else if fs[0].name@ == name {
        Option::Some(fs[0].value)
    } else {
        spec_lookup(fs.skip(1), name)
    }
}

/// Executable first-match field lookup.
#[verifier::loop_isolation(false)]
pub fn get_field<'a>(fields: &'a Vec<JsonField>, name: &String) -> (r: Option<&'a JsonValue>)
    ensures
        match r {
            Option::Some(v) => spec_lookup(fields@, name@) == Option::Some(*v),
            Option::None => spec_lookup(fields@, name@) is None,
        },
{
    proof {
        assert(fields@.skip(0) =~= fields@);
    }
    let mut i: usize = 0;
    while i < fields.len()
        invariant
            0 <= i <= fields@.len(),
            spec_lookup(fields@, name@) == spec_lookup(fields@.skip(i as int), name@),
        decreases fields@.len() - i,
    {
        proof {
            assert(fields@.skip(i as int)[0] == fields@[i as int]);
            assert(fields@.skip(i as int).skip(1) =~= fields@.skip(i as int + 1));
        }
        if fields[i].name == *name {
            return Option::Some(&fields[i].value);
        }
        i += 1;
    }
    proof {
        assert(fields@.skip(i as int).len() == 0);
    }
    Option::None
}

/// The census view: an object with the census groups keyed by group,
/// a change flag, and non-negative update counters.
pub open spec fn census_shape(v: JsonValue) -> bool {
    match v {
        JsonValue::Object(fs) => {
            &&& spec_lookup(fs@, "census_groups"@) matches Option::Some(JsonValue::Object(_))
            &&& spec_lookup(fs@, "changed"@) matches Option::Some(JsonValue::Boolean(_))
            &&& spec_lookup(fs@, "last_election_counter"@) matches Option::Some(
                JsonValue::Number(n),
            ) && n >= 0
            &&& spec_lookup(fs@, "last_membership_counter"@) matches Option::Some(
                JsonValue::Number(n),
            ) && n >= 0
        },
        _ => false,
    }
}

/// Whether a rendered census document is well-shaped.
pub fn census_view_is_valid(v: &JsonValue) -> (r: bool)
    ensures
        r == census_shape(*v),
{
    match v {
        JsonValue::Object(fs) => {
            let groups_ok = match get_field(fs, &String::from_str("census_groups")) {
                Option::Some(val) => val matches JsonValue::Object(_),
                Option::None => false,
            };
            let changed_ok = match get_field(fs, &String::from_str("changed")) {
                Option::Some(val) => val matches JsonValue::Boolean(_),
                Option::None => false,
            };
            let election_ok = match get_field(fs, &String::from_str("last_election_counter")) {
                Option::Some(JsonValue::Number(n)) => *n >= 0,
                _ => false,
            };
            let membership_ok = match get_field(fs, &String::from_str("last_membership_counter")) {
                Option::Some(JsonValue::Number(n)) => *n >= 0,
                _ => false,
            };
            groups_ok && changed_ok && election_ok && membership_ok
        },
        _ => false,
    }
}

/// The gossip view: one object per rumor kind, each an object keyed by
/// the stream the rumor belongs to.
pub open spec fn gossip_shape(v: JsonValue) -> bool {
    match v {
        JsonValue::Object(fs) => {
            &&& spec_lookup(fs@, "member"@) matches Option::Some(JsonValue::Object(_))
            &&& spec_lookup(fs@, "service"@) matches Option::Some(JsonValue::Object(_))
            &&& spec_lookup(fs@, "election"@) matches Option::Some(JsonValue::Object(_))
            &&& spec_lookup(fs@, "departure"@) matches Option::Some(JsonValue::Object(_))
            &&& spec_lookup(fs@, "service_file"@) matches Option::Some(JsonValue::Object(_))
        },
        _ => false,
    }
}

/// Whether a rendered gossip document is well-shaped.
pub fn gossip_view_is_valid(v: &JsonValue) -> (r: bool)
    ensures
        r == gossip_shape(*v),
{
    match v {
        JsonValue::Object(fs) => {
            let member_ok = match get_field(fs, &String::from_str("member")) {
                Option::Some(val) => val matches JsonValue::Object(_),
                Option::None => false,
            };
            let service_ok = match get_field(fs, &String::from_str("service")) {
                Option::Some(val) => val matches JsonValue::Object(_),
                Option::None => false,
            };
            let election_ok = match get_field(fs, &String::from_str("election")) {
                Option::Some(val) => val matches JsonValue::Object(_),
                Option::None => false,
            };
            let departure_ok = match get_field(fs, &String::from_str("departure")) {
                Option::Some(val) => val matches JsonValue::Object(_),
                Option::None => false,
            };
            let file_ok = match get_field(fs, &String::from_str("service_file")) {
                Option::Some(val) => val matches JsonValue::Object(_),
                Option::None => false,
            };
            member_ok && service_ok && election_ok && departure_ok && file_ok
        },
        _ => false,
    }
}

/// One entry of the services view: at least its group identity, its
/// rendered configuration and its latest health-check result.
pub open spec fn service_entry_shape(e: JsonValue) -> bool {
    match e {
        JsonValue::Object(fs) => {
            &&& spec_lookup(fs@, "service_group"@) matches Option::Some(JsonValue::Text(_))
            &&& spec_lookup(fs@, "cfg"@) is Some
            &&& spec_lookup(fs@, "health_check"@) matches Option::Some(JsonValue::Text(_))
        },
        _ => false,
    }
}

/// The services view: a list of well-shaped service entries.
pub open spec fn services_shape(v: JsonValue) -> bool {
    match v {
        JsonValue::List(items) => forall|i: int|
            0 <= i < items@.len() ==> service_entry_shape(#[trigger] items@[i]),
        _ => false,
    }
}

/// Whether one services-view entry is well-shaped.
pub fn service_entry_is_valid(e: &JsonValue) -> (r: bool)
    ensures
        r == service_entry_shape(*e),
{
    match e {
        JsonValue::Object(fs) => {
            let group_ok = match get_field(fs, &String::from_str("service_group")) {
                Option::Some(val) => val matches JsonValue::Text(_),
                Option::None => false,
            };
            let cfg_ok = match get_field(fs, &String::from_str("cfg")) {
                Option::Some(_) => true,
                Option::None => false,
            };
            let health_ok = match get_field(fs, &String::from_str("health_check")) {
                Option::Some(val) => val matches JsonValue::Text(_),
                Option::None => false,
            };
            group_ok && cfg_ok && health_ok
        },
        _ => false,
    }
}

/// Whether a rendered services document is well-shaped.
#[verifier::loop_isolation(false)]
pub fn services_view_is_valid(v: &JsonValue) -> (r: bool)
    ensures
        r == services_shape(*v),
{
    match v {
        JsonValue::List(items) => {
            let mut i: usize = 0;
            while i < items.len()
                invariant
                    0 <= i <= items@.len(),
                    forall|t: int| 0 <= t < i ==> service_entry_shape(#[trigger] items@[t]),
                decreases items@.len() - i,
            {
                if !service_entry_is_valid(&items[i]) {
                    return false;
                }
                i += 1;
            }
            true
        },
        _ => false,
    }
}

/// First service entry of a services document whose "service_group"
/// field holds the given group string.
pub open spec fn spec_find_service(items: Seq<JsonValue>, sg: Seq<char>) -> Option<JsonValue>
    decreases items.len(),
{
    if items.len() == 0 {
        Option::None
    } else if entry_names_group(items[0], sg) {
        Option::Some(items[0])
    } else {
        spec_find_service(items.skip(1), sg)
    }
}

/// The entry's "service_group" field holds exactly `sg`.
pub open spec fn entry_names_group(e: JsonValue, sg: Seq<char>) -> bool {
    match e {
        JsonValue::Object(fs) => spec_lookup(fs@, "service_group"@) matches Option::Some(
            JsonValue::Text(s),
        ) && s@ == sg,
        _ => false,
    }
}

/// Finds the service entry for a group in the services view, as the
/// gateway's per-service endpoints do; `None` when the document is not
/// a list or no entry names the group.
#[verifier::loop_isolation(false)]
pub fn service_from_services<'a>(service_group: &String, services: &'a JsonValue) -> (r: Option<
    &'a JsonValue,
>)
    ensures
        match r {
            Option::Some(e) => services matches JsonValue::List(items) && spec_find_service(
                items@,
                service_group@,
            ) == Option::Some(*e),
            Option::None => match services {
                JsonValue::List(items) => spec_find_service(items@, service_group@) is None,
                _ => true,
            },
        },
{
    match services {
        JsonValue::List(items) => {
            proof {
                assert(items@.skip(0) =~= items@);
            }
            let mut i: usize = 0;
            while i < items.len()
                invariant
                    0 <= i <= items@.len(),
                    spec_find_service(items@, service_group@) == spec_find_service(
                        items@.skip(i as int),
                        service_group@,
                    ),
                decreases items@.len() - i,
            {
                proof {
                    assert(items@.skip(i as int)[0] == items@[i as int]);
                    assert(items@.skip(i as int).skip(1) =~= items@.skip(i as int + 1));
                }
                let hit = match &items[i] {
                    JsonValue::Object(fs) => {
                        match get_field(fs, &String::from_str("service_group")) {
                            Option::Some(JsonValue::Text(s)) => *s == *service_group,
                            _ => false,
                        }
                    },
                    _ => false,
                };
                if hit {
                    return Option::Some(&items[i]);
                }
                i += 1;
            }
            proof {
                assert(items@.skip(i as int).len() == 0);
            }
            Option::None
        },
        _ => Option::None,
    }
}

} // verus!
