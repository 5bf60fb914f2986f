//! Decisions of the read-only reporting gateway that do not touch HTTP:
//! bearer-token authorization, service-group naming, health-endpoint
//! rendering and the cache-key-path default. The HTTP plumbing around
//! them lives at the application edge.

use vstd::prelude::*;
use vstd::string::{StringExecFns, StringSliceAdditionalSpecFns};
use vstd::utf8::encode_utf8;
use crate::types::HealthCheckResult;

verus! {

/// An ASCII whitespace byte, as the header is split on.
pub open spec fn is_space(c: u8) -> bool {
    c == 9 || c == 10 || c == 11 || c == 12 || c == 13 || c == 32
}

/// The bytes of the word `Bearer` (ASCII codes, spelled out since byte
/// literals are not accepted).
pub open spec fn bearer_word() -> Seq<u8> {
    seq![66u8, 101u8, 97u8, 114u8, 101u8, 114u8]
}

/// A granting decomposition of a header: optional whitespace, the word
/// `Bearer` starting at `i`, at least one whitespace byte, the token
/// starting at `j`, optional trailing whitespace — that is, the header
/// splits on whitespace into exactly `Bearer` and the token.
pub open spec fn bearer_split_at(h: Seq<u8>, t: Seq<u8>, i: int, j: int) -> bool {
    &&& 0 <= i
    &&& i + 6 < j
    &&& j + t.len() <= h.len()
    &&& h.subrange(i, i + 6) == bearer_word()
    &&& forall|k: int| 0 <= k < i ==> is_space(#[trigger] h[k])
    &&& forall|k: int| i + 6 <= k < j ==> is_space(#[trigger] h[k])
    &&& h.subrange(j, j + t.len() as int) == t
    &&& forall|k: int| j + t.len() <= k < h.len() ==> is_space(#[trigger] h[k])
    &&& t.len() > 0
    &&& forall|k: int| 0 <= k < t.len() ==> !is_space(#[trigger] t[k])
}

/// An Authorization header grants access for a configured token iff it
/// splits on whitespace into exactly the word `Bearer` followed by that
/// token. A configured token that is empty or itself holds whitespace
/// can therefore never be presented successfully.
pub open spec fn bearer_grants(header: Seq<u8>, token: Seq<u8>) -> bool {
    exists|i: int, j: int| bearer_split_at(header, token, i, j)
}

/// Whether a request is authorized: with no token configured the
/// gateway runs unauthenticated and everything is allowed; with one,
/// anything short of a header that splits into `Bearer` plus that exact
/// token is refused.
pub open spec fn spec_authorized(expected: Option<Seq<u8>>, header: Option<Seq<u8>>) -> bool {
    match expected {
        Option::None => true,
        Option::Some(token) => match header {
            Option::Some(h) => bearer_grants(h, token),
            Option::None => false,
        },
    }
}

/// Executable whitespace test.
fn is_space_byte(c: u8) -> (r: bool)
    ensures
        r == is_space(c),
{
    c == 9 || c == 10 || c == 11 || c == 12 || c == 13 || c == 32
}

/// First index at or after `from` holding a non-whitespace byte, or the
/// length if there is none.
#[verifier::loop_isolation(false)]
fn skip_spaces(b: &[u8], from: usize) -> (r: usize)
    requires
        from <= b@.len(),
    ensures
        from <= r <= b@.len(),
        forall|k: int| from <= k < r ==> is_space(#[trigger] b@[k]),
        r < b@.len() ==> !is_space(b@[r as int]),
{
    let n = b.len();
    let mut r = from;
    while r < n
        invariant
            from <= r <= n,
            forall|k: int| from <= k < r ==> is_space(#[trigger] b@[k]),
        decreases n - r,
    {
        if !is_space_byte(b[r]) {
            return r;
        }
        r += 1;
    }
    r
}

/// First index at or after `from` holding a whitespace byte, or the
/// length if there is none.
#[verifier::loop_isolation(false)]
fn skip_word(b: &[u8], from: usize) -> (r: usize)
    requires
        from <= b@.len(),
    ensures
        from <= r <= b@.len(),
        forall|k: int| from <= k < r ==> !is_space(#[trigger] b@[k]),
        r < b@.len() ==> is_space(b@[r as int]),
{
    let n = b.len();
    let mut r = from;
    while r < n
        invariant
            from <= r <= n,
            forall|k: int| from <= k < r ==> !is_space(#[trigger] b@[k]),
        decreases n - r,
    {
        if is_space_byte(b[r]) {
            return r;
        }
        r += 1;
    }
    r
}

/// Whether `t` sits at `from` in `b`. The comparison accumulates a flag
/// over every byte instead of returning at the first mismatch, so its
/// memory access pattern does not depend on where a wrong token
/// differs.
#[verifier::loop_isolation(false)]
fn token_matches_at(b: &[u8], from: usize, t: &[u8]) -> (r: bool)
    requires
        from + t@.len() <= b@.len(),
    ensures
        r == (b@.subrange(from as int, from as int + t@.len() as int) == t@),
{
    let bn = b.len();
    proof {
        assert(from + t@.len() <= bn);
    }
    let n = t.len();
    let mut same = true;
    let mut k: usize = 0;
    while k < n
        invariant
            0 <= k <= n,
            same == (forall|w: int| 0 <= w < k ==> b@[from + w] == t@[w]),
        decreases n - k,
    {
        same = same && b[from + k] == t[k];
        k += 1;
    }
    proof {
        if same {
            assert(b@.subrange(from as int, from as int + t@.len() as int) =~= t@);
        } else {
            let w = choose|w: int| 0 <= w < n && b@[from + w] != t@[w];
            assert(b@.subrange(from as int, from as int + t@.len() as int)[w] != t@[w]);
        }
    }
    same
}

/// Authorization decision for one request, given the configured token
/// and the request's Authorization header, if either is present.
#[verifier::loop_isolation(false)]
pub fn authorize(expected: &Option<String>, header: &Option<String>) -> (ok: bool)
    ensures
        ok == spec_authorized(
            match expected {
                Option::Some(t) => Option::Some(encode_utf8(t@)),
                Option::None => Option::None,
            },
            match header {
                Option::Some(h) => Option::Some(encode_utf8(h@)),
                Option::None => Option::None,
            },
        ),
{
    let token = match expected {
        Option::None => {
            return true;
        },
        Option::Some(t) => t,
    };
    let h = match header {
        Option::None => {
            return false;
        },
        Option::Some(h) => h,
    };
    let hb = h.as_str().as_bytes();
    let tb = token.as_str().as_bytes();
    let n = hb.len();
    // the word `Bearer` can only start at the first non-whitespace byte
    let i = skip_spaces(hb, 0);
    proof {
        assert forall|i2: int, j2: int|
            bearer_split_at(hb@, tb@, i2, j2) implies i2 == i by {
            assert(hb@[i2] == hb@.subrange(i2, i2 + 6)[0]);
            assert(!is_space(hb@[i2]));
            if i2 < i {
            } else if i2 > i {
                assert(is_space(hb@[i as int]));
            }
        }
    }
    if n - i < 7 {
        return false;
    }
    let word_ok = hb[i] == 66 && hb[i + 1] == 101 && hb[i + 2] == 97 && hb[i + 3] == 114 && hb[i
        + 4] == 101 && hb[i + 5] == 114;
    if !word_ok {
        proof {
            assert forall|i2: int, j2: int| !bearer_split_at(hb@, tb@, i2, j2) by {
                if bearer_split_at(hb@, tb@, i2, j2) {
                    assert(hb@.subrange(i2, i2 + 6) =~= hb@.subrange(i as int, i as int + 6));
                    assert(hb@[i as int] == hb@.subrange(i2, i2 + 6)[0]);
                    assert(hb@[i as int + 1] == hb@.subrange(i2, i2 + 6)[1]);
                    assert(hb@[i as int + 2] == hb@.subrange(i2, i2 + 6)[2]);
                    assert(hb@[i as int + 3] == hb@.subrange(i2, i2 + 6)[3]);
                    assert(hb@[i as int + 4] == hb@.subrange(i2, i2 + 6)[4]);
                    assert(hb@[i as int + 5] == hb@.subrange(i2, i2 + 6)[5]);
                }
            }
        }
        return false;
    }
    if !is_space_byte(hb[i + 6]) {
        proof {
            assert forall|i2: int, j2: int| !bearer_split_at(hb@, tb@, i2, j2) by {
                if bearer_split_at(hb@, tb@, i2, j2) {
                    assert(is_space(hb@[i as int + 6]));
                }
            }
        }
        return false;
    }
    // the token can only start at the next non-whitespace byte
    let j = skip_spaces(hb, i + 6);
    proof {
        assert forall|i2: int, j2: int|
            bearer_split_at(hb@, tb@, i2, j2) implies j2 == j by {
            assert(hb@[j2] == hb@.subrange(j2, j2 + tb@.len() as int)[0]);
            assert(!is_space(hb@[j2]));
            if j2 < j {
            } else if j2 > j {
                assert(j < n);
                assert(is_space(hb@[j as int]));
            }
        }
    }
    if j >= n {
        return false;
    }
    let e = skip_word(hb, j);
    let len_ok = e - j == tb.len();
    let tail = skip_spaces(hb, e);
    let tail_ok = tail == n;
    let tok_ok = if len_ok {
        token_matches_at(hb, j, tb)
    } else {
        false
    };
    let granted = len_ok && tail_ok && tok_ok;
    proof {
        if granted {
            assert(bearer_split_at(hb@, tb@, i as int, j as int)) by {
                assert(hb@.subrange(i as int, i as int + 6) =~= bearer_word());
                assert(e > j);
            }
        } else {
            assert forall|i2: int, j2: int| !bearer_split_at(hb@, tb@, i2, j2) by {
                if bearer_split_at(hb@, tb@, i2, j2) {
                    // the split token must be exactly the word [j, e)
                    assert(j2 == j);
                    if j + tb@.len() < e {
                        assert(!is_space(hb@[j as int + tb@.len()]));
                        assert(is_space(hb@[j2 + tb@.len()]));
                    } else if j + tb@.len() > e {
                        assert(e < n);
                        assert(is_space(hb@[e as int]));
                        assert(tb@[e - j as int] == hb@.subrange(j2, j2 + tb@.len() as int)[
                            e - j as int
                        ]);
                        assert(!is_space(tb@[e - j as int]));
                    }
                    assert(e - j == tb@.len());
                    assert(hb@.subrange(j as int, j as int + tb@.len() as int) == tb@);
                    assert forall|k: int| e <= k < n implies is_space(#[trigger] hb@[k]) by {}
                    assert(tail == n) by {
                        if tail < n {
                            assert(is_space(hb@[tail as int]));
                        }
                    }
                }
            }
        }
    }
    granted
}

/// The status line the health endpoint renders for a check result.
pub fn health_status_label(result: HealthCheckResult) -> (r: String)
    ensures
        match result {
            HealthCheckResult::Okay => r@ == "OK"@,
            HealthCheckResult::Warning => r@ == "WARNING"@,
            HealthCheckResult::Critical => r@ == "CRITICAL"@,
            HealthCheckResult::Unknown => r@ == "UNKNOWN"@,
        },
{
    match result {
        HealthCheckResult::Okay => String::from_str("OK"),
        HealthCheckResult::Warning => String::from_str("WARNING"),
        HealthCheckResult::Critical => String::from_str("CRITICAL"),
        HealthCheckResult::Unknown => String::from_str("UNKNOWN"),
    }
}

/// A valid service or group name: non-empty ASCII letters, digits,
/// underscores or dashes (as bytes).
pub open spec fn valid_name(b: Seq<u8>) -> bool {
    &&& b.len() > 0
    &&& forall|i: int| 0 <= i < b.len() ==> name_byte(#[trigger] b[i])
}

/// A byte allowed in a service or group name: an ASCII letter, digit,
/// underscore or dash.
pub open spec fn name_byte(c: u8) -> bool {
    (97 <= c <= 122) || (65 <= c <= 90) || (48 <= c <= 57) || c == 95 || c == 45
}

/// Checks one name.
#[verifier::loop_isolation(false)]
fn check_name(s: &String) -> (r: bool)
    ensures
        r == valid_name(encode_utf8(s@)),
{
    let b = s.as_str().as_bytes();
    if b.len() == 0 {
        return false;
    }
    let n = b.len();
    let mut i: usize = 0;
    while i < n
        invariant
            n == b@.len(),
            0 <= i <= n,
            forall|t: int| 0 <= t < i ==> name_byte(#[trigger] b@[t]),
        decreases n - i,
    {
        let c = b[i];
        let ok = (97 <= c && c <= 122) || (65 <= c && c <= 90) || (48 <= c && c <= 57)
            || c == 95 || c == 45;
        if !ok {
            return false;
        }
        i += 1;
    }
    true
}

/// The identity of a service group: a service name, a group name and an
/// optional organization, rendered as `service.group` or
/// `service.group@org`.
pub struct ServiceGroup {
    pub service: String,
    pub group: String,
    pub org: Option<String>,
}

impl ServiceGroup {
    /// All parts are valid names.
    pub open spec fn wf(&self) -> bool {
        &&& valid_name(encode_utf8(self.service@))
        &&& valid_name(encode_utf8(self.group@))
        &&& match self.org {
            Option::Some(o) => valid_name(encode_utf8(o@)),
            Option::None => true,
        }
    }

    /// Validates and builds a service group identity; a malformed part
    /// is rejected, exactly when some part is empty or holds a byte
    /// outside letters, digits, underscore and dash.
    pub fn new(service: String, group: String, org: Option<String>) -> (r: Result<
        ServiceGroup,
        (),
    >)
        ensures
            match r {
                Result::Ok(sg) => {
                    &&& sg.wf()
                    &&& sg.service == service
                    &&& sg.group == group
                    &&& sg.org == org
                },
                Result::Err(()) => !({
                    &&& valid_name(encode_utf8(service@))
                    &&& valid_name(encode_utf8(group@))
                    &&& match org {
                        Option::Some(o) => valid_name(encode_utf8(o@)),
                        Option::None => true,
                    }
                }),
            },
    {
        if !check_name(&service) {
            return Result::Err(());
        }
        if !check_name(&group) {
            return Result::Err(());
        }
        let org_ok = match &org {
            Option::Some(o) => check_name(o),
            Option::None => true,
        };
        if !org_ok {
            return Result::Err(());
        }
        Result::Ok(ServiceGroup { service, group, org })
    }

    /// The rendered identity, as it appears in the services view.
    pub fn to_text(&self) -> (r: String)
        ensures
            match self.org {
                Option::Some(o) => r@ == self.service@ + "."@ + self.group@ + "@"@ + o@,
                Option::None => r@ == self.service@ + "."@ + self.group@,
            },
    {
        let mut r = String::new();
        r.append(self.service.as_str());
        r.append(".");
        r.append(self.group.as_str());
        match &self.org {
            Option::Some(o) => {
                r.append("@");
                r.append(o.as_str());
            },
            Option::None => {},
        }
        r
    }
}

/// Whether a cache-key-path argument asks for the default location (the
/// sentinel the command line uses for "not set"); an empty value never
/// stands for the default, it is simply not the sentinel.
pub fn cache_key_path_is_default(value: &String, sentinel: &String) -> (r: bool)
    ensures
        r == (value@ == sentinel@),
{
    value.eq(sentinel)
}

} // verus!
